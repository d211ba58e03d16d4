[package]
name = "localhosting"
version = "0.1.0"
edition = "2021"
publish = false

[dependencies]
rand = "0.8"
clap = "*"
anyhow = "*"
faccess = "*"
actix-web = "*"
actix-service = "*"
