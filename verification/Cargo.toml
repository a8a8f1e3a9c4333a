[package]
name = "strainer"
version = "0.1.0"
edition = "2021"
publish = false

[dependencies]
clap = "=2.34.0"
crossbeam = "=0.8.5"
rustc-hash = "1.1"
syntect = { version = "=5.3.0", default-features = false, features = ["default-fancy"] }
