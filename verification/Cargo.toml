[package]
name = "libyaml_safer"
version = "0.1.0"
edition = "2021"
publish = false

[dependencies]
arraydeque = "0.5"
