[package]
name = "walkshed"
version = "0.1.0"
edition = "2021"
publish = false

[dependencies]
fast_paths = "*"
haversine-redux = "*"
kiddo = "*"
serde = { version = "*", features = ["derive"] }
serde_json = "*"
reqwest = { version = "*", default-features = false, features = ["blocking", "json"] }
geocoding = "*"
clap = { version = "*", features = ["derive"] }
