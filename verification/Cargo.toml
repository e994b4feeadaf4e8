[package]
name = "inverted_index"
version = "0.1.0"
edition = "2021"
publish = false

[dependencies]
bimap = "0.6"
bincode = "1"
chrono = "0.4"
serde_json = "1"
