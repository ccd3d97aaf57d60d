[package]
name = "rshell"
version = "0.1.0"
edition = "2021"
publish = false

[dependencies]
nom = "4"
nix = "*"
rustyline = "*"
failure = "0.1"
