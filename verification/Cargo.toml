[package]
name = "lor_api_wrapper"
version = "0.1.0"
edition = "2021"
publish = false

[dependencies]
lordeckcodes = "*"
serde = "*"
serde_json = "*"
log = "*"
log4rs = "*"
reqwest = { version = "*", default-features = false, features = ["blocking", "json"] }
