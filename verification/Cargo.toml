[package]
name = "opentelemetry-traceable"
version = "0.1.0"
edition = "2021"
publish = false

[dependencies]
arc-swap = "1"
base64 = "0.22"
clap = { version = "4", features = ["derive"] }
leb128 = "0.2"
linkme = "0.3"
opentelemetry = "0.32"
proc-macro2 = "1"
quote = "1"
serde = { version = "1", features = ["derive"] }
serde_json = "1"
smallvec = "1"
syn = { version = "2", features = ["full"] }

[dev-dependencies]
opentelemetry_sdk = { version = "0.32", features = ["testing"] }
tokio = { version = "1", features = ["rt"] }
