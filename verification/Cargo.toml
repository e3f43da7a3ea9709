[package]
name = "loadpace"
version = "0.1.0"
edition = "2021"
publish = false

[dependencies]
arc-swap = "1"
futures-core = "0.3"
moka = { version = "0.12", features = ["future"] }
pin-project-lite = "0.2"
rand = "=0.10.3"
tokio = { version = "1", features = ["macros", "rt", "sync", "time"] }
tower = { version = "0.5", features = ["balance", "discover", "load", "util"] }
