[package]
name = "nexmud"
version = "0.1.0"
edition = "2021"
publish = false

[dependencies]
encoding_rs = "=0.8.44"
flate2 = "=1.1.10"
regex = "=1.13.1"
tokio = { version = "=1.54.1", features = ["rt-multi-thread", "macros", "net", "io-util", "io-std", "time", "sync", "signal", "process"] }
mlua = { version = "=0.10.5", features = ["lua54", "vendored", "send"] }
