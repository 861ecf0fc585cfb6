[package]
name = "version_sorter"
version = "0.1.0"
edition = "2021"
publish = false

[dependencies]
helix = "0.7"
