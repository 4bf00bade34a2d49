[package]
name = "bdd-rust-multiprotocol-server"
version = "0.1.0"
edition = "2021"
publish = false

[dependencies]
async-graphql = "7"
async-graphql-axum = "7"
axum = "0.8"
prost = "0.13"
serde = { version = "1", features = ["derive"] }
serde_json = "1"
tokio = { version = "1", features = ["macros", "rt-multi-thread", "net", "io-util", "time", "sync"] }
tonic = "0.12"
tracing = "0.1"
tracing-subscriber = "0.3"
