[package]
name = "tsp_anneal"
version = "0.1.0"
edition = "2021"
publish = false

[dependencies]
clap = { version = "2", default-features = false }
lazy_static = "1"
rand = "0.4"
slog = "2"
sloggers = { version = "*", default-features = false }
