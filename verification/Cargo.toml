[package]
name = "sorb"
version = "0.1.0"
edition = "2021"
publish = false

[dependencies]
crossterm = "0.28"
ctrlc = "3"
dirs = "*"
rand = "0.10"
ratatui = "0.29"
rustyline = "*"
serde = { version = "1", features = ["derive"] }
serde_json = "1"
shell-words = "1"
