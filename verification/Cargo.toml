[package]
name = "lighter_client"
version = "0.1.0"
edition = "2021"
publish = false

[dependencies]
url = "=2.5.8"
serde = { version = "=1.0.229", features = ["derive"] }
serde_json = "=1.0.154"
tokio = { version = "=1.54.1", features = ["net", "rt", "macros", "time"] }
tokio-tungstenite = { version = "=0.21.0", features = ["rustls-tls-webpki-roots"] }
futures-util = { version = "=0.3.34", features = ["sink"] }
