[package]
name = "register-core"
version = "0.1.0"
edition = "2021"
publish = false

[dependencies]
image = { version = "0.25", default-features = false, features = ["png", "tiff", "pnm"] }
imageproc = { version = "0.25", default-features = false }
thiserror = "2"
anyhow = "1"
clap = { version = "4", features = ["derive"] }
crossbeam-channel = "0.5"
globset = "0.4"
indicatif = "0.17"
mimalloc = "0.1"
tracing = "0.1"
tracing-subscriber = { version = "0.3", features = ["env-filter", "fmt"] }
walkdir = "2"

[dev-dependencies]
tempfile = "3"
