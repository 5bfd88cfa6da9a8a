[package]
name = "midi_driver"
version = "0.1.0"
edition = "2021"
publish = false

[dependencies]
midir = "*"
serde = { version = "*", features = ["derive"] }
serde_json = "*"
fs2 = "*"
rosc = "*"
sysinfo = "*"
