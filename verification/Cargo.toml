[package]
name = "branchbound"
version = "0.1.0"
edition = "2021"
publish = false

[dependencies]
clap = { version = "4", features = ["derive"] }
clap-markdown = "0.1"
csv = "1"
rand = "0.8"
rustc-hash = "2"
smallvec = "1"
