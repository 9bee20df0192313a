[package]
name = "polygonify"
version = "0.1.0"
edition = "2021"
publish = false

[dependencies]
rand = "0.8"
geo = "*"
wkt = "*"
clap = "3"
anyhow = "1"
