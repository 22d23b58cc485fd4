[package]
name = "flcommon"
version = "0.1.0"
edition = "2021"
publish = false

[dependencies]
hdrhistogram = "7"
prost = "0.13"
reqwest = { version = "0.12", default-features = false, features = ["json"] }
serde_json = "1"
tokio = { version = "1", features = ["macros", "rt-multi-thread", "time"] }
tonic = "0.12"
