[package]
name = "fermix-stt"
version = "0.1.0"
edition = "2021"
publish = false

[dependencies]
base64 = "0.22"
serde = { version = "1", features = ["derive"] }
serde_json = "1"
sherpa-onnx = "*"
symphonia = { version = "*", features = ["aac", "isomp4", "mp3"] }
