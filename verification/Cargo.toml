[package]
name = "coopfight"
version = "0.1.0"
edition = "2021"
publish = false

[dependencies]
rand = "=0.8.5"
rand_distr = "=0.4.3"
serde = { version = "1", features = ["derive"] }
serde_json = "1"
csv = "1"
uuid = { version = "1", features = ["v4"] }
clap = { version = "4", features = ["derive"] }
strum = { version = "0.26", features = ["derive"] }
