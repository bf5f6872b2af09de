[package]
name = "tsp"
version = "0.1.0"
edition = "2021"
publish = false

[dependencies]
clap = { version = "3.2", features = ["derive"] }
fsum = "*"
rand = "0.8"
rand_pcg = "0.3"
rustc-hash = "2"
