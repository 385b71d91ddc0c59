[package]
name = "compilation"
version = "0.1.0"
edition = "2021"
publish = false

[dependencies]
intervallum = "*"
gcollections = "*"
clap = { version = "4", features = ["derive"] }
itertools = "*"
serde = { version = "1", features = ["derive"] }
