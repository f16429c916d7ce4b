[package]
name = "rankless"
version = "0.1.0"
edition = "2021"
publish = false

[dependencies]
deunicode = "1"
hashbrown = "*"
serde = { version = "1", features = ["derive"] }
serde_json = "1"
