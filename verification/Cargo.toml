[package]
name = "league_core"
version = "0.1.0"
edition = "2021"
publish = false

[dependencies]
serde = { version = "*", features = ["derive"] }
serde_json = "*"
chrono = "*"
dotenvy = "*"
email_address = "*"
bcrypt = "*"
jsonwebtoken = "*"
