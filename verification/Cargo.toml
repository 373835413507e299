[package]
name = "hft_engine"
version = "0.1.0"
edition = "2021"
publish = false

[dependencies]
tokio = { version = "=1.53.2", features = ["rt-multi-thread", "macros", "sync", "time", "net", "signal"] }
tokio-tungstenite = "=0.30.0"
futures-util = "=0.3.34"
async-trait = "=0.1.92"
serde = { version = "=1.0.229", features = ["derive"] }
serde_json = "=1.0.151"
tracing = "=0.1.44"
thiserror = "=1.0.69"
lazy_static = "=1.5.1"
prometheus = "=0.14.0"
warp = { version = "=0.4.3", features = ["server"] }
