[package]
name = "gridstore"
version = "0.1.0"
edition = "2021"
publish = false

[dependencies]
min-max-heap = "*"
morton = "*"
rusqlite = { version = "*", features = ["bundled"] }
serde = { version = "*", features = ["derive"] }
