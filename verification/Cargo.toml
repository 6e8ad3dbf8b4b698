[package]
name = "xml2json"
version = "0.1.0"
edition = "2021"
publish = false

[dependencies]
quick-xml = "=0.37.5"

[dev-dependencies]
serde_json = "=1.0.151"
