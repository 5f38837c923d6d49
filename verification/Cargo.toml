[package]
name = "halo"
version = "0.1.0"
edition = "2021"
publish = false

[dependencies]
matchit = "0.7"
minijinja = "2"
serde_json = "1"
serde_urlencoded = "0.7"
flate2 = "1"
jsonwebtoken = "9"
anyhow = "1"
clap = { version = "4", features = ["derive"] }
hyper = { version = "0.14", features = ["full"] }
http = "0.2"
tokio = { version = "1", features = ["full"] }
serde = { version = "1", features = ["derive"] }
serde_yaml = "0.9"
tracing = "0.1"
tracing-subscriber = { version = "0.3", features = ["env-filter"] }
futures = "0.3"
include_dir = "0.7"
