[package]
name = "duckjeu"
version = "0.1.0"
edition = "2021"
publish = false

[dependencies]
serde_json = "1"
ureq = "3"
duckdb = { version = "1", default-features = false, features = ["loadable-extension"] }
