[package]
name = "naxone"
version = "0.1.0"
edition = "2021"
publish = false

[dependencies]
sha2 = "=0.10.9"
serde = { version = "=1.0.229", features = ["derive"] }
serde_json = "=1.0.154"
toml = "=0.8.23"
async-trait = "=0.1.92"
futures-util = "=0.3.34"
rcgen = "0.13"
time = "0.3"
zip = { version = "2", default-features = false, features = ["deflate"] }
reqwest = { version = "0.12", default-features = false, features = ["rustls-tls", "stream"] }
tokio = { version = "1", features = ["fs", "io-util", "sync", "rt-multi-thread", "macros", "time"] }

[dev-dependencies]
