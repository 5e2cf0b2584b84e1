[package]
name = "lacam0_rs"
version = "0.1.0"
edition = "2021"
publish = false

[dependencies]
rand = "0.9"
rayon = "1"
regex = "1"
thiserror = "2"
clap = { version = "4", features = ["derive"] }
