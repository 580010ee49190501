[package]
name = "evm_extractor"
version = "0.1.0"
edition = "2021"
publish = false

[dependencies]
csv = "1.3"
flate2 = "1.0"
futures = "0.3"
reqwest = { version = "0.12", default-features = false, features = ["json", "rustls-tls"] }
serde_json = "1.0"
tokio = { version = "1", features = ["macros", "rt-multi-thread", "time"] }
