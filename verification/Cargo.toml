[package]
name = "renamelayer"
version = "0.1.0"
edition = "2021"
publish = false

[dependencies]
regex = "1"
rusqlite = "0.31"
tempfile = "3"
thiserror = "1"
