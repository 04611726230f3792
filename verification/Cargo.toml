[package]
name = "codesize"
version = "1.0.0"
edition = "2021"
publish = false

[dependencies]
clap = "2"
git2 = { version = "*", default-features = false }
nix = "0.26"
quick-error = "1"
walkdir = "2"
