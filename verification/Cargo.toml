[package]
name = "topictrend"
version = "0.1.0"
edition = "2021"
publish = false

[dependencies]
roaring = "*"
chrono = "*"
clap = "*"
polars = { version = "*", default-features = false, features = ["parquet", "lazy"] }
