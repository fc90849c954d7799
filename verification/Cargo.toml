[package]
name = "blackjack_assistant"
version = "0.1.0"
edition = "2021"
publish = false

[dependencies]
rand = "0.8"
egui = "0.27"
image = { version = "0.24", default-features = false, features = ["png"] }
