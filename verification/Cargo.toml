[package]
name = "entity_values"
version = "0.1.0"
edition = "2021"
publish = false

[dependencies]
hex = "*"
num-bigint = "*"
graphql-parser = "*"
serde = { version = "*", features = ["derive"] }
