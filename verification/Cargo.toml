[package]
name = "teehee"
version = "0.1.0"
edition = "2021"
publish = false

[dependencies]
crossterm = "0.22"
jetscii = "0.5"
regex = "1"
xi-rope = "0.3"
