[package]
name = "tree_filter"
version = "0.1.0"
edition = "2021"
publish = false

[dependencies]
rs_tracing = { version = "=1.1.0", features = ["rs_tracing"] }
