[package]
name = "words_breaker"
version = "0.1.0"
edition = "2021"
publish = false

[dependencies]
anyhow = "1"
bip39 = { version = "2", features = ["all-languages"] }
bitcoin = "0.32"
clap = { version = "4", features = ["derive"] }
itertools = "0.13"
num_cpus = "1"
rayon = "1"
