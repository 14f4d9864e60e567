[package]
name = "lynx_yew"
version = "0.1.0"
edition = "2021"
publish = false

[dependencies]
cssparser = "=0.38.0"
futures = { version = "=0.3.34", default-features = false, features = ["std", "executor"] }
indexmap = "2"
