[package]
name = "mda"
version = "0.1.0"
edition = "2021"
publish = false

[dependencies]
sha1 = "=0.10.7"
bincode = "=1.3.3"
serde = { version = "=1.0.229", features = ["derive"] }
anyhow = "=1.0.104"
sea-orm = { version = "=0.11.3", default-features = false, features = ["macros", "with-chrono"] }
chrono = { version = "=0.4.45", features = ["serde"] }
