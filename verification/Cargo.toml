[package]
name = "ziprs"
version = "0.1.0"
edition = "2021"
publish = false

[dependencies]
zip = { version = "*", default-features = false, features = ["deflate", "bzip2", "zstd"] }
clap = { version = "4", features = ["derive"] }
rayon = "1"
walkdir = "2"
pyo3 = "*"
