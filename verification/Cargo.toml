[package]
name = "odis"
version = "0.1.0"
edition = "2021"
publish = false

[dependencies]
bit-set = "=0.11.1"
splr = "=0.17.2"
rust-sugiyama = "=0.4.0"
reqwest = { version = "=0.13.5", default-features = false }
