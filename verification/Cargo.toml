[package]
name = "celeste_converter"
version = "0.1.0"
edition = "2021"
publish = false

[dependencies]
png = "0.17"
anyhow = "1"
rayon = "1"
pathdiff = "0.2"
same-file = "1"
