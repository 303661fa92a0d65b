[package]
name = "database"
version = "0.1.0"
edition = "2021"
publish = false

[dependencies]
actix-web = "4"
actix-cors = "*"
actix-files = "*"
serde = { version = "1", features = ["derive"] }
rusqlite = "*"
