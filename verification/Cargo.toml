[package]
name = "velo_core"
version = "0.1.0"
edition = "2021"
publish = false

[dependencies]
vob = "=4.0.1"
llguidance = "=1.9.1"
toktrie = "=1.9.1"
serde_json = "=1.0.154"
minijinja = "=2.24.0"
rand = "=0.8.8"
serde = { version = "=1.0.229", features = ["derive"] }
tokio = { version = "=1.54.1", features = ["full"] }
axum = "=0.7.9"
clap = { version = "=4.6.7", features = ["derive"] }
futures = "=0.3.34"
async-stream = "=0.3.6"
anyhow = "=1.0.104"
objc2 = "0.6"
objc2-foundation = "0.3"
objc2-metal = "0.3"
