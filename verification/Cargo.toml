[package]
name = "tic_tac_toe_bot"
version = "0.1.0"
edition = "2021"
publish = false

[dependencies]
bincode = "1"
rand = "0.8"
clap = { version = "4", features = ["derive"] }
