[package]
name = "oslo"
version = "0.1.0"
edition = "2021"
publish = false

[dependencies]
nix = { version = "*", features = ["hostname", "term", "poll", "user", "signal", "fs"] }
rustyline = "*"
which = "*"
