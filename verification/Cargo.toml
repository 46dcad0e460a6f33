[package]
name = "socketsweep"
version = "0.1.0"
edition = "2021"
publish = false

[dependencies]
rand = "0.9"
serde = { version = "1", features = ["derive"] }
postcard = { version = "1", features = ["use-std"] }
jwalk = "0.8"
serde_json = "1"
adb_client = "*"
