[package]
name = "cc_switch"
version = "0.1.0"
edition = "2021"
publish = false

[dependencies]
chrono = "0.4"
indexmap = "2"
log = "0.4"
serde = { version = "1", features = ["derive"] }
serde_json = { version = "1", features = ["preserve_order"] }
serde_yaml = "0.9"
toml_edit = "0.22"
