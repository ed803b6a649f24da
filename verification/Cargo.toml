[package]
name = "ba_search"
version = "0.1.0"
edition = "2021"
publish = false

[dependencies]
anyhow = "*"
bon = "*"
clap = { version = "*", features = ["derive"] }
cmd_lib = "*"
colored = "*"
scraper = "*"
