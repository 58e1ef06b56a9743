[package]
name = "json_commons"
version = "0.1.0"
edition = "2021"
publish = false

[dependencies]
bson = "2"
hex = "0.4"
json = "0.12"
