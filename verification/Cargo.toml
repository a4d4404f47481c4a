[package]
name = "brick_road"
version = "0.1.0"
edition = "2021"
publish = false

[dependencies]
chrono = { version = "0.4", default-features = false, features = ["alloc", "std"] }
rusqlite = { version = "0.32", features = ["bundled"] }
directories = "5"
