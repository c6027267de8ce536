[package]
name = "day_sketch"
version = "0.1.0"
edition = "2021"
publish = false

[dependencies]
day-app = { version = "=0.6.3", features = ["model"] }
day-piece-settings = "=0.6.3"
day-model = "=0.6.3"
day-persistence = "=0.1.0"
day-spec = "=0.6.3"
