[package]
name = "resource_sim"
version = "0.1.0"
edition = "2021"
publish = false

[dependencies]
rand = "*"
noise = "*"
ratatui = "*"
crossterm = "*"
tracing = "*"
tracing-appender = "*"
tracing-subscriber = "*"
