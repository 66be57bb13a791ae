[package]
name = "maelstrom_echo"
version = "0.1.0"
edition = "2021"
publish = false

[dependencies]
rand = "*"
serde = { version = "*", features = ["derive"] }
serde_json = "*"
text_io = "*"
color-eyre = "*"
