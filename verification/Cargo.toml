[package]
name = "entry_store"
version = "0.1.0"
edition = "2021"
publish = false

[dependencies]
async-std = "=1.13.2"
async-trait = "=0.1.92"
chrono = "=0.4.45"
hound = "=3.5.1"
log = "=0.4.34"
serde = { version = "=1.0.229", features = ["derive"] }
sqlx = { version = "=0.9.0", default-features = false, features = ["runtime-tokio", "sqlite", "derive"] }
tokio = { version = "=1.53.2", default-features = false, features = ["fs", "io-util", "rt"] }
whisper-rs = "=0.16.0"
