[package]
name = "typst_url"
version = "0.1.0"
edition = "2021"
publish = false

[dependencies]
ciborium = "*"
serde = { version = "*", features = ["derive"] }
thiserror = "*"
wasm-minimal-protocol = "*"
