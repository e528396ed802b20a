[package]
name = "adr_optimizer"
version = "0.1.0"
edition = "2021"
publish = false

[dependencies]
chrono = "0.4"
plotters = "0.3"
rand = "0.8"
rand_chacha = "0.3"
rayon = "1"
serde = { version = "1", features = ["derive"] }
serde_json = "1"
