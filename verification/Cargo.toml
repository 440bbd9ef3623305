[package]
name = "code_highlight"
version = "0.1.0"
edition = "2021"
publish = false

[dependencies]
xml-rs = "0.8"
syntect = { version = "5", default-features = false, features = ["default-fancy"] }
clap = "4"
glob = "0.3"
pandoc = "*"
