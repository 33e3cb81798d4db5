[package]
name = "yaml_serde_edit"
version = "0.1.0"
edition = "2021"
publish = false

[dependencies]
serde = { version = "=1.0.229", features = ["derive"] }
serde_norway = "=0.9.42"
thiserror = "=2.0.21"
yaml-edit = "=0.2.3"
