[package]
name = "diary2"
version = "0.1.0"
edition = "2021"
publish = false

[dependencies]
anyhow = "1"
chrono = "0.4"
clap = "*"
colored = "*"
comrak = "*"
oauth2 = "*"
regex = "1"
reqwest = { version = "*", default-features = false, features = ["json"] }
serde = { version = "1", features = ["derive"] }
serde_json = "1"
tokio = { version = "1", features = ["full"] }
toml = "*"
url = "*"
uuid = { version = "1", features = ["v4"] }
