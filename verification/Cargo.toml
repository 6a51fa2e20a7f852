[package]
name = "nanograph_storage"
version = "0.1.0"
edition = "2021"
publish = false

[dependencies]
serde = { version = "1", features = ["derive"] }
futures-core = "0.3"
thiserror = "2"
chrono = { version = "0.4", default-features = false, features = ["clock"] }
