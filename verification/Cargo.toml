[package]
name = "lgview-ng"
version = "1.5.2"
edition = "2021"
publish = false

[dependencies]
clap = { version = "4.4", features = ["derive"] }
colored = "2.1"
futures-util = "0.3"
reqwest = { version = "0.12", default-features = false, features = ["json", "rustls-tls"] }
serde = { version = "1.0", features = ["derive"] }
serde_json = "1.0"
telnet = "0.2"
tokio = { version = "1.35", features = ["full"] }
toml = "0.8"
