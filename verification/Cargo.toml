[package]
name = "cli_chat_core"
version = "0.1.0"
edition = "2021"
publish = false

[dependencies]
crossterm = "0.29"
