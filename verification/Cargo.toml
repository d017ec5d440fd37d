[package]
name = "square_dss"
version = "0.1.0"
edition = "2021"
publish = false

[dependencies]
alloy-primitives = { version = "=1.7.3", features = ["k256"] }
alloy-signer = "=2.5.0"
alloy-signer-local = "=2.5.0"
ark-ff = "=0.6.0"
ark-ec = "=0.6.0"
ark-bn254 = "=0.6.0"
chrono = "=0.4.45"
serde = { version = "=1.0.229", features = ["derive"] }
serde_json = "=1.0.151"
url = "=2.5.8"
tokio = { version = "=1.53.2", features = ["rt-multi-thread", "macros", "time", "signal"] }
axum = "=0.8.9"
reqwest = { version = "=0.13.5", default-features = false, features = ["json"] }
