[package]
name = "gautrain"
version = "0.1.0"
edition = "2021"
publish = false

[dependencies]
dateparser = "*"
anyhow = "*"
argh = "*"
dialoguer = "*"
