[package]
name = "git_objects"
version = "0.1.0"
edition = "2021"
publish = false

[dependencies]
clap = { version = "4", features = ["derive"] }
configparser = "3"
flate2 = "1"
indexmap = "2"
ini = "1"
sha1 = "0.10"
