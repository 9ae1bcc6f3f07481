[package]
name = "textnav"
version = "0.1.0"
edition = "2021"
publish = false

[dependencies]
ignore = "0.4"
ratatui = "0.29"
