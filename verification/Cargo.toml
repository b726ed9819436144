[package]
name = "tobiuo"
version = "0.1.0"
edition = "2021"
publish = false

[dependencies]
nom = "4.2"
docopt = "1.1"
serde = "1.0"
serde_derive = "1.0"
serde_json = "1.0"
