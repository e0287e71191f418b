[package]
name = "str8ts"
version = "0.1.0"
edition = "2021"
publish = false

[dependencies]
russcip = "0.2"
iced = { version = "0.10", default-features = false }
iced_style = "0.9"
