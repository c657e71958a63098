[package]
name = "chunker"
version = "1.0.0"
edition = "2021"
publish = false

[dependencies]
clap = "4"
colored = "2"
indicatif = "0.17"
tokio = { version = "1", features = ["rt-multi-thread", "macros"] }
