[package]
name = "notes_app"
version = "0.1.0"
edition = "2021"
publish = false

[dependencies]
uuid = { version = "*", features = ["v4"] }
chrono = "*"
serde = { version = "*", features = ["derive"] }
serde_json = "*"
actix-web = "*"
actix-cors = "*"
tokio = { version = "*", features = ["macros", "rt-multi-thread"] }
colored = "*"
