[package]
name = "flowsynth"
version = "0.1.0"
edition = "2021"
publish = false

[dependencies]
cpal = "*"
ringbuf = "0.2"
rustc_apfloat = "*"
serde = { version = "*", features = ["derive"] }
serde_json = "*"
simple-websockets = "*"
tungstenite = "*"
