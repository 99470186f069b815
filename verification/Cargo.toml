[package]
name = "etk_asm"
version = "0.1.0"
edition = "2021"
publish = false

[dependencies]
clap = { version = "3.2", features = ["derive"] }
indexmap = "2"
num-bigint = "0.4"
rand = "0.8"
snafu = "0.7"
