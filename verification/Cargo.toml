[package]
name = "nabla_frontend"
version = "0.1.0"
edition = "2021"
publish = false

[dependencies]
nom = "7.1"
thiserror = "1.0"
serde_json = "1.0"
serde_yaml = "0.9"
toml = "0.8"
xml-builder = "0.5"
color-eyre = "0.6"
clap = { version = "4", features = ["derive"] }
tokio = { version = "1", features = ["io-std", "macros", "rt-multi-thread"] }
tower-lsp = "0.20"
