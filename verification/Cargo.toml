[package]
name = "webscale"
version = "0.1.0"
edition = "2021"
publish = false

[dependencies]
binary_search_tree = "*"
rand = "0.8"
