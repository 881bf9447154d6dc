[package]
name = "glslint"
version = "0.8.1"
edition = "2021"
publish = false

[dependencies]
anyhow = "1"
serde = { version = "1", features = ["derive"] }
toml = "0.8"
tokio = { version = "1", features = ["rt-multi-thread", "macros", "io-std", "time"] }
tower-lsp = "0.20"
