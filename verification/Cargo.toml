[package]
name = "atlas_core"
version = "0.1.0"
edition = "2021"
publish = false

[dependencies]
chrono = { version = "0.4", default-features = false, features = ["std"] }
csv = "1"
nalgebra = { version = "0.32", default-features = false, features = ["std"] }
serde = { version = "1", features = ["derive"] }
thiserror = "1"
