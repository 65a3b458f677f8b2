[package]
name = "invoice_pipeline"
version = "0.1.0"
edition = "2021"
publish = false

[dependencies]
indexmap = { version = "2", features = ["serde"] }
serde = { version = "1", features = ["derive"] }
calamine = "*"
unicode-normalization = "*"
