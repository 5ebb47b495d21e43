[package]
name = "mull"
version = "0.21.0"
edition = "2021"
publish = false

[dependencies]
clap = { version = "4", features = ["derive"] }
colored = "*"
ignore = "0.4"
percent-encoding = "2"
serde_json = "1"
similar = "2"
tokio = { version = "1", features = ["io-std", "macros", "rt-multi-thread", "time"] }
tower-lsp-server = "*"
