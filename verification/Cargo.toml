[package]
name = "template_cke"
version = "0.1.0"
edition = "2021"
publish = false

[dependencies]
serde = { version = "1", features = ["derive"] }
thiserror = "2"
inventory = "*"
zarrs_chunk_key_encoding = "*"
zarrs_metadata = "*"
zarrs_plugin = "*"
zarrs_storage = "*"

[dev-dependencies]
serde_json = "1"
