[package]
name = "gezellig"
version = "0.1.0"
edition = "2021"
publish = false

[dependencies]
base64 = "*"
tokio = { version = "*", features = ["full"] }
serde = { version = "*", features = ["derive"] }
serde_json = "*"
anyhow = "*"
futures-util = "*"
http = "*"
tokio-tungstenite = "*"
symphonia = "*"
async-trait = "*"
rusty_ytdl = "*"
