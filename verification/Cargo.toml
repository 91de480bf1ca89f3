[package]
name = "converter"
version = "0.1.2"
edition = "2021"
publish = false

[dependencies]
clap = "=3.2.25"
image = "=0.23.14"
imageproc = "=0.22.0"
nannou = "0.17"
rand = "=0.8.8"
rusttype = "=0.9.3"
serde = { version = "=1.0.229", features = ["derive"] }
serde_json = "=1.0.154"
