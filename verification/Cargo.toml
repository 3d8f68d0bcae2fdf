[package]
name = "content_search"
version = "0.1.0"
edition = "2021"
publish = false

[dependencies]
aho-corasick = "1"
glob = "0.3"
