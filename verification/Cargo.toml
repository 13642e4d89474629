[package]
name = "stargate"
version = "0.1.0"
edition = "2021"
publish = false

[dependencies]
serde = { version = "1", features = ["derive"] }
serde_json = "1"
graphql-parser = "*"
async-std = { version = "1", features = ["attributes"] }
async-trait = "*"
futures = "*"
tide = "*"
surf = "*"

[dev-dependencies]
json-patch = "*"
