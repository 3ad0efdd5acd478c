[package]
name = "char_editor"
version = "0.1.0"
edition = "2021"
publish = false

[dependencies]
ropey = "*"
crossterm = "*"
ratatui = "*"
syntect = { version = "5", default-features = false, features = ["default-fancy"] }
color-eyre = "*"
