[package]
name = "quelle"
version = "0.1.0"
edition = "2021"
publish = false

[dependencies]
pest = "2"
pest_meta = "2"
pest_vm = "2"
serde = { version = "1", features = ["derive"] }
serde_json = "1"
