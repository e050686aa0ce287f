[package]
name = "enum_utils"
version = "0.1.0"
edition = "2021"
publish = false

[dependencies]
anyhow = "1"
proc-macro2 = "1"
quote = "1"
serde_derive_internals = "0.25"
syn = { version = "1", features = ["full", "extra-traits"] }
