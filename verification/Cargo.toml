[package]
name = "engine"
version = "0.1.0"
edition = "2021"
publish = false

[dependencies]
rust_decimal = { version = "1", features = ["serde"] }
rust_decimal_macros = "1"
chrono = "0.4"
uuid = { version = "1", features = ["v4"] }
redis = "*"
serde = { version = "1", features = ["derive"] }
serde_json = "1"
once_cell = "1"
actix-web = "4"
diesel = { version = "2", features = ["postgres", "r2d2", "uuid"] }
dotenvy = "0.15"
