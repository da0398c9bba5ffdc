[package]
name = "chat_repo"
version = "0.1.0"
edition = "2021"
publish = false

[dependencies]
tiktoken-rs = "*"
ic-cdk = "*"
ic-llm = "*"
candid = "*"
