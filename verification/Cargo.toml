[package]
name = "swift_swallow_tree_search"
version = "0.1.0"
edition = "2021"
publish = false

[dependencies]
rand = "0.9"
rustc-hash = "2"
indexmap = "2"
