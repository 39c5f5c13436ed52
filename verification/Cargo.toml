[package]
name = "kvc"
version = "0.5.1"
edition = "2021"
publish = false

[dependencies]
regex = "1"
clap = "2"
