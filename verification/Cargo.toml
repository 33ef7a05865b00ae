[package]
name = "datastory"
version = "0.1.0"
edition = "2021"
publish = false

[dependencies]
chrono = "*"
csv = "*"
serde_json = "*"
plotters = "*"
genpdf = "*"

[dependencies.parquet]
version = "*"
default-features = false
