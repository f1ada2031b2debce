[package]
name = "ruc"
version = "0.1.0"
edition = "2021"
publish = false

[dependencies]
sha1 = "0.10"
anyhow = "1"
clap = "4"
home = "0.5"
