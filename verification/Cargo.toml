[package]
name = "photonmq"
version = "0.1.0"
edition = "2021"
publish = false

[dependencies]
memmap2 = "0.9"
serde = { version = "1", features = ["derive"] }
serde_json = "1"
bincode = "1"
snafu = "0.7"
tokio = { version = "1", features = ["full"] }
axum = { version = "0.6", features = ["macros"] }
async-trait = "0.1"
rusqlite = "0.29"
opendal = "0.39"
secrecy = { version = "0.8", features = ["serde"] }
config = "0.13"
dotenv = "0.15"
bytes = "1"
