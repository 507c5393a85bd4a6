[package]
name = "bump2version"
version = "0.1.0"
edition = "2021"
publish = false

[dependencies]
regex = "*"
gix = "*"
clap = { version = "*", features = ["derive"] }
anyhow = "*"
smallvec = "*"
