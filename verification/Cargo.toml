[package]
name = "countdown"
version = "0.1.0"
edition = "2021"
publish = false

[dependencies]
chrono = "0.4"
confy = "*"
home = "*"
rodio = "*"
serde = "1"
serde_derive = "1"
