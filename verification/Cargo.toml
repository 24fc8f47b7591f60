[package]
name = "oblivion_waf"
version = "0.1.0"
edition = "2021"
publish = false

[dependencies]
percent-encoding = "2"
rustls-pemfile = "1"
tokio = { version = "1", features = ["full"] }
tokio-rustls = "0.24"
tracing = "0.1"
tracing-subscriber = { version = "0.3", features = ["env-filter"] }
