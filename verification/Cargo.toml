[package]
name = "longcut"
version = "0.1.0"
edition = "2021"
publish = false

[dependencies]
xkbcommon = "0.8"
xkeysym = "0.2"
regex = "1"
hex = "0.4"
itertools = "*"
serde = { version = "1", features = ["derive"] }
serde_yaml = "0.9"
clap = { version = "4", features = ["derive"] }
dirs = "*"
