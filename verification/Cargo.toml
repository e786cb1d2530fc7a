[package]
name = "tictactoe_q"
version = "0.1.0"
edition = "2021"
publish = false

[dependencies]
rustc-hash = "*"
rand = "0.8"
clap = { version = "4", features = ["derive"] }
