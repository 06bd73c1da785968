[package]
name = "daily_challenges"
version = "0.1.0"
edition = "2021"
publish = false

[dependencies]
rand = "0.8"
rand_isaac = "0.3"
