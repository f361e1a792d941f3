//! Tracing of single functions, turned on and off while the program runs.
//!
//! Every traceable function is a site of a [`registry::Registry`], known by its key. An
//! [`instrumentation::Instrumentation`] selects sites by key or by pattern, see
//! [`selector`], and has a tracer for the spans of the calls it traces. Instrumentations
//! do not see each other: each has one bit in the masks of the sites and one trace of its
//! own.
//!
//! [`stylus`] has a default instrumentation that is always there, ids for the keys, and
//! sets of functions that travel as short texts. [`traceable`] is what
//! the attribute on a function comes to.
//!
//! The library holds the rules: what a pattern matches, which sites a selection turns on,
//! which slot is handed out, which span goes under which. It keeps no state of its own.
//! Registry and slots are passed in, and it is for the program to share them between
//! threads.
pub mod glob;
pub mod instrumentation;
pub mod keys;
pub mod mask;
pub mod registry;
pub mod selector;
pub mod stylus;
pub mod text;
pub mod traceable;
