[package]
name = "chat"
version = "0.1.0"
edition = "2021"
publish = false

[dependencies]
getrandom = "0.3"
thiserror = "2"
crossterm = "0.28"
ratatui = "0.29"
