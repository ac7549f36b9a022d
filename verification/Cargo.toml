[package]
name = "ansidraw"
version = "0.1.0"
edition = "2021"
publish = false

[dependencies]
png = "0.17"
gif = "0.13"
crossterm = "0.28"
serde_json = "1"
