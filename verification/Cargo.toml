[package]
name = "topfreq"
version = "0.1.0"
edition = "2021"
publish = false

[dependencies]
fastrand = "*"
clap = { version = "*", features = ["derive"] }
prettytable-rs = "*"
rayon = "*"
serde = { version = "*", features = ["derive"] }
serde_json = "*"
