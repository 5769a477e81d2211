[package]
name = "tren"
version = "0.1.0"
edition = "2021"
publish = false

[dependencies]
anyhow = "=1.0.104"
async-openai = { version = "=0.42.2", features = ["chat-completion"] }
clap = { version = "=4.6.7", features = ["derive"] }
dotenv = "=0.15.0"
futures = "=0.3.34"
minijinja = "=2.24.0"
pandoc = "=0.8.11"
pandoc_types = "=0.6.0"
serde_json = "=1.0.154"
tokio = { version = "=1.54.1", features = ["macros", "rt-multi-thread"] }
