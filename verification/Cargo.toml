[package]
name = "chirp"
version = "0.1.0"
edition = "2021"
publish = false

[dependencies]
aes-gcm = "0.10"
anyhow = "1"
bytes = "1"
clap = { version = "4", features = ["derive"] }
fugit = "0.3"
hashbrown = "0.15"
hex = "0.4"
indicatif = "0.17"
libm = "0.2"
rand = "0.8"
serde = { version = "1", features = ["derive"] }
serde_json = "1"
thiserror = "1"
tokio = { version = "1", features = ["full"] }
tracing = "0.1"
tracing-subscriber = { version = "0.3", features = ["env-filter"] }
