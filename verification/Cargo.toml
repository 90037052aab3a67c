[package]
name = "twitch_chatbot"
version = "0.1.0"
edition = "2021"
publish = false

[dependencies]
clap = "4"
json = "0.12"
tokio = { version = "1", features = ["full"] }
