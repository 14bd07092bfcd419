[package]
name = "snapstore"
version = "0.1.0"
edition = "2021"
publish = false

[dependencies]
blake3 = "=1.8.7"
actix = "=0.13.5"
actix-cors = "=0.7.2"
actix-web = "=4.15.0"
actix-web-actors = "=4.3.1"
anyhow = "=1.0.104"
chrono = "=0.4.45"
envy = "=0.4.2"
firestore-db-and-auth = "=0.8.0"
futures-util = "=0.3.34"
git2 = "=0.21.0"
serde = { version = "=1.0.229", features = ["derive"] }
serde_json = "=1.0.151"
