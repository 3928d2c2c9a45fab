[package]
name = "keyboard_synth"
version = "0.1.0"
edition = "2021"
publish = false

[dependencies]
anyhow = "=1.0.104"
clap = { version = "=4.6.7", features = ["derive"] }
cpal = "=0.17.3"
device_query = "=4.0.1"
ringbuf = "=0.4.8"
