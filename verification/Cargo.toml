[package]
name = "zap"
version = "0.1.0"
edition = "2021"
publish = false

[dependencies]
smartstring = "1"
fxhash = "0.2"
chrono = { version = "0.4", default-features = false, features = ["clock"] }
tokio = { version = "1", features = ["net", "io-util", "rt-multi-thread", "macros"] }
