[package]
name = "rust_audio_api"
version = "0.1.0"
edition = "2021"
publish = false

[dependencies]
anyhow = "*"
cpal = "*"
crossbeam-channel = "*"
dasp = { version = "*", features = ["signal", "slice", "interpolate", "interpolate-sinc", "ring_buffer"] }
hound = "*"
petgraph = "*"
realfft = "*"
ringbuf = "*"
rustfft = "*"
symphonia = "*"
thread-priority = "*"
uuid = { version = "*", features = ["v4"] }
