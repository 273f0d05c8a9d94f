[package]
name = "rusted_httpd"
version = "0.1.0"
edition = "2021"
publish = false

[dependencies]
regex = "=1.13.1"
serde = { version = "=1.0.229", features = ["derive"] }
serde_yaml = "=0.9.34"
tokio = { version = "=1.54.1", features = ["rt-multi-thread", "macros", "net", "io-util", "sync"] }
crossbeam-channel = "=0.5.17"
fastcgi-client = { version = "=0.12.0", features = ["tokio"] }
