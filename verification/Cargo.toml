[package]
name = "duckdb_kart"
version = "0.1.0"
edition = "2021"
publish = false

[dependencies]
gix = { version = "=0.90.0", default-features = false, features = ["sha1"] }
serde = { version = "=1.0.229", features = ["derive"] }
serde_json = "=1.0.154"
