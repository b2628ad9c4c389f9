[package]
name = "dicebot"
version = "0.1.0"
edition = "2021"
publish = false

[dependencies]
rand = "0.8"
regex = "1"
serenity = "*"
tokio = { version = "1", features = ["macros", "rt-multi-thread"] }
