[package]
name = "itf_core"
version = "0.1.0"
edition = "2021"
publish = false

[dependencies]
rand = "0.8"
regex = "1"
clap = { version = "4", features = ["derive"] }
walkdir = "2"
chrono = "0.4"
prettytable-rs = "0.10"
rayon = "1"
flate2 = "1"
