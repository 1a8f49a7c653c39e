[package]
name = "feature_audit"
version = "0.1.0"
edition = "2021"
publish = false

[dependencies]
cargo = "=0.96.0"
cargo-util = "=0.2.28"
cargo-credential-libsecret = "=0.5.6"
kstring = "=2.0.0"
