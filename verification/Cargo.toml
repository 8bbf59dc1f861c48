[package]
name = "unistellar_search"
version = "0.1.0"
edition = "2021"
publish = false

[dependencies]
fuzzy-matcher = "*"
serde = { version = "*", features = ["derive"] }
serde_json = "*"

[dev-dependencies]
ulid = "*"
