[package]
name = "component_index"
version = "0.1.0"
edition = "2021"
publish = false

[dependencies]
multimap = "*"
bevy = { version = "*", default-features = false }
