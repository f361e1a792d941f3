//! Tracing with a default instrumentation, which is always there and is driven by free
//! functions, and named ones beside it. Sets of functions travel as short texts.
pub mod catalog;
pub mod codec;
pub mod config;
pub mod ids;
pub mod instrumentation;
pub mod sites;
pub mod slots;
pub mod spans;
pub mod subset;
pub mod url_base64;
pub mod varint;
