[package]
name = "todo_app"
version = "0.1.0"
edition = "2021"
publish = false

[dependencies]
chrono = "0.4"
serde = { version = "1", features = ["derive"] }
toml = "0.8"
ratatui = { version = "0.29", features = ["serde", "widget-calendar"] }
crossterm = "0.28"
time = "0.3"
