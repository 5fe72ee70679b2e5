[package]
name = "config_render"
version = "0.1.0"
edition = "2021"
publish = false

[dependencies]
json-canon = "*"
serde_json = "1"
serde_yaml = "0.9"

[dev-dependencies]
regex = "1"
