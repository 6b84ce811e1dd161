[package]
name = "parchmint"
version = "0.1.0"
edition = "2021"
publish = false

[dependencies]
serde = { version = "=1.0.229", features = ["derive"] }
sha2 = "0.10"
toml = "=1.1.8"
thiserror = "=2.0.21"

[dev-dependencies]
tempfile = "=3.27.0"
