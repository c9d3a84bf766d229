[package]
name = "nginx_stats"
version = "0.1.0"
edition = "2021"
publish = false

[dependencies]
regex = "1"
hyper = { version = "0.14", default-features = false }
csv = "1"
serde = { version = "1", features = ["derive"] }
rayon = "1"
cpython = "0.7"
