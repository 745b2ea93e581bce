[package]
name = "sonic-bridge"
version = "0.4.1"
edition = "2021"
publish = false

[dependencies]
ndarray = "0.16"
rustfft = "6"
serde = { version = "1", features = ["derive"] }
symphonia = { version = "0.5", features = ["mp3"] }
toml = "0.8"
unicode-normalization = "0.1"
