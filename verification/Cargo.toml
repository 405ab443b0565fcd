[package]
name = "reddit_place_2022"
version = "0.1.0"
edition = "2021"
publish = false

[dependencies]
chrono = { version = "0.4", default-features = false, features = ["std"] }
flate2 = "1"
image = { version = "0.24", default-features = false, features = ["png"] }
