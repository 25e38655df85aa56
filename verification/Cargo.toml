[package]
name = "whep_srt"
version = "0.1.0"
edition = "2021"
publish = false
rust-version = "1.95"

[dependencies]
clap = { version = "4", features = ["derive", "env"] }
ctrlc = "3"
env_logger = "0.11"
gst-plugin-webrtc = { version = "=0.15.4", default-features = false, features = ["whep"] }
gstreamer = "=0.25.4"
log = "0.4"
