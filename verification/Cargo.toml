[package]
name = "card_table"
version = "0.1.0"
edition = "2021"
publish = false

[dependencies]
rand = "0.8"
tokio = { version = "1", features = ["sync", "rt", "rt-multi-thread", "macros"] }
