[package]
name = "project_store"
version = "0.1.0"
edition = "2021"
publish = false

[dependencies]
time = "*"
fs4 = "*"
scopeguard = "*"
anyhow = "*"
serde = { version = "*", features = ["derive"] }
serde-error = "*"
async-trait = "*"
blocking = "*"
futures-lite = "*"

[dev-dependencies]
bson = "*"
