[package]
name = "pdfgen"
version = "0.1.0"
edition = "2021"
publish = false

[dependencies]
hex = "*"
rand = "*"
clap = { version = "*", features = ["derive"] }
