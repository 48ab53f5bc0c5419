[package]
name = "vrc_log"
version = "0.1.0"
edition = "2021"
publish = false

[dependencies]
chrono = "0.4"
notify = "6"

[dev-dependencies]
lazy-regex = "3"
