[package]
name = "functerm"
version = "0.1.0"
edition = "2021"
publish = false

[dependencies]
anyhow = "*"
atomicwrites = "*"
base64-turbo = "*"
fs-err = "*"
kill_tree = "*"
parking_lot = "*"
portable-pty = "*"
rmcp = { version = "*", features = ["schemars"] }
serde = { version = "*", features = ["derive"] }
shell-words = "*"
strum = { version = "*", features = ["derive"] }
