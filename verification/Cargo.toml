[package]
name = "alveograph_exporter"
version = "0.1.0"
edition = "2021"
publish = false

[dependencies]
rust_xlsxwriter = "=0.99.1"

[dev-dependencies]
calamine = "*"
