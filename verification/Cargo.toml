[package]
name = "clearlinux"
version = "1.0.0"
edition = "2021"
publish = false

[dependencies]
colored = "2"
ctrlc = "3"
dialoguer = "0.11"
humansize = "2"
indicatif = "0.17"
