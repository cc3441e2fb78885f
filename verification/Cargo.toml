[package]
name = "solid_formats"
version = "0.1.0"
edition = "2021"
publish = false

[dependencies]
base64 = "0.22"
flate2 = "1"
glam = "*"
serde_json = "1"
