[package]
name = "midimi"
version = "0.1.0"
edition = "2021"
publish = false

[dependencies]
midly = "=0.5.3"
rustysynth = "=1.3.8"
rustfft = "=6.4.1"
rtrb = "=0.3.6"
cpal = "=0.18.2"
serde = { version = "=1.0.229", features = ["derive"] }
serde_json = "=1.0.154"
turso = "=0.6.1"
