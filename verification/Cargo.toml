[package]
name = "auto-commit"
version = "0.1.0"
edition = "2021"
publish = false

[dependencies]
async-openai = { version = "=0.43.0", features = ["byot", "chat-completion"] }
clap = { version = "=4.6.7", features = ["derive"] }
crossterm = "=0.29.0"
futures = "0.3"
globset = "=0.4.21"
indicatif = "=0.18.6"
inquire = "=0.9.4"
owo-colors = { version = "=4.4.0", features = ["supports-colors"] }
regex = "=1.13.1"
serde = { version = "1", features = ["derive"] }
serde_json = "=1.0.154"
tokio = { version = "=1.54.1", features = ["full"] }
toml = "=1.1.8"
