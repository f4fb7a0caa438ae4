[package]
name = "docstore"
version = "0.1.0"
edition = "2021"
publish = false

[dependencies]
lru = "0.6"
tantivy-fst = "*"
