[package]
name = "mcpg-expr"
version = "0.1.0"
edition = "2021"
publish = false

[dependencies]
anyhow = "=1.0.104"
cel = "=0.15.0"
serde_json = "=1.0.154"
