[package]
name = "depgraph"
version = "0.1.0"
edition = "2021"
rust-version = "1.95"
publish = false

[dependencies]
oxc_allocator = "=0.139.0"
oxc_parser = "=0.139.0"
oxc_span = "=0.139.0"
oxc_resolver = "*"
petgraph = "*"
