[package]
name = "thissy"
version = "0.1.0"
edition = "2021"
publish = false

[dependencies]
rspotify = "*"
serde = { version = "*", features = ["derive"] }
serde_json = "*"
serenity = "*"
tokio = { version = "*", features = ["macros", "rt-multi-thread"] }
