[package]
name = "search_trees"
version = "0.1.0"
edition = "2021"
publish = false

[dependencies]
quickcheck = { version = "0.9", default-features = false }
rand = "0.7"
