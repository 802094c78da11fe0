[package]
name = "rhabits"
version = "0.1.0"
edition = "2021"
publish = false

[dependencies]
chrono = { version = "0.4", default-features = false, features = ["clock", "std"] }
clap = { version = "4", features = ["derive"] }
crossterm = "*"
directories-next = "2"
prettytable-rs = "0.10"
serde = { version = "1", features = ["derive"] }
serde_json = "1"
terminal_size = "*"
