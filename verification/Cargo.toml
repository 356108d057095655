[package]
name = "midi_hotkey"
version = "0.1.0"
edition = "2021"
publish = false

[dependencies]
queues = "*"
serde = { version = "*", features = ["derive"] }
serde_json = "*"
process_path = "*"
