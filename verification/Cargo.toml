[package]
name = "dqache"
version = "0.1.0"
edition = "2021"
publish = false

[dependencies]
ort = { version = "=2.0.0-rc.13", default-features = false, features = ["load-dynamic", "tensorrt", "cuda", "directml", "coreml", "xnnpack"] }
