[package]
name = "aftp"
version = "0.1.0"
edition = "2021"
publish = false

[dependencies]
uuid = { version = "1", features = ["v4"] }
serde = { version = "1", features = ["derive"] }
serde_json = "1"
thiserror = "1"
dotenv = "0.15"
rocket = { version = "0.5", features = ["json"] }
rocket_cors = "0.6"
rocket_seek_stream = "0.2"
