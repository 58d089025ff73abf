[package]
name = "compphys"
version = "0.1.0"
edition = "2021"
publish = false

[dependencies]
anyhow = "1"
clap = { version = "4", features = ["derive"] }
font8x8 = "0.3"
image = { version = "0.25", default-features = false, features = ["png"] }
num-complex = "0.4"
rand = "0.8"
rand_distr = "0.4"
rustfft = "6"
serde = { version = "1", features = ["derive"] }
serde_json = "1"
