[package]
name = "qgrep"
version = "0.1.0"
edition = "2021"
publish = false

[dependencies]
regex = "*"
clap = "*"
xdg-basedir = "*"
