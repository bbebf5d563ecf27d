[package]
name = "matching_engine"
version = "0.1.0"
edition = "2021"
publish = false

[dependencies]
chrono = { version = "=0.4.45", features = ["serde"] }
rust_decimal = "=1.43.0"
serde = { version = "=1.0.229", features = ["derive"] }
sqlx = { version = "0.8", default-features = false, features = ["derive", "uuid", "chrono", "rust_decimal"] }
uuid = { version = "=1.29.0", features = ["v4", "serde"] }
