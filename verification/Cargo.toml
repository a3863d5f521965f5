[package]
name = "bevy_badnet"
version = "0.1.0"
edition = "2021"
publish = false

[dependencies]
bevy = { version = "=0.17.3", default-features = false, features = ["std", "bevy_log"] }
bytes = "=1.12.1"
crossbeam-channel = "=0.5.17"
getrandom = "=0.3.4"
mio = { version = "=1.2.4", features = ["os-poll", "net"] }
serde = { version = "=1.0.229", features = ["derive"] }
serde_json = "=1.0.154"
xxhash-rust = { version = "=0.8.19", features = ["const_xxh64"] }
ciborium = "=0.2.2"
