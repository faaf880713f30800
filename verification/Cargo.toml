[package]
name = "wt_store"
version = "0.1.0"
edition = "2021"
publish = false

[dependencies]
sha2 = "0.10"
tempfile = "3"
libc = "0.2"
