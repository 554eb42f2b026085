[package]
name = "hurl-lsp"
version = "0.3.0"
edition = "2021"
publish = false

[dependencies]
dashmap = "=6.2.1"
hurl_core = "=8.0.1"
hurlfmt = "=8.0.1"
serde = { version = "=1.0.229", features = ["derive"] }
serde_json = "=1.0.154"
serde_yaml = "=0.9.34"
tokio = { version = "=1.54.1", features = ["io-std", "io-util", "macros", "rt-multi-thread", "process", "time", "sync"] }
tower-lsp = "=0.20.0"
tracing = "=0.1.44"
tracing-subscriber = { version = "=0.3.23", features = ["env-filter", "fmt"] }
url = "=2.5.8"
