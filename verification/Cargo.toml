[package]
name = "stump"
version = "0.1.0"
edition = "2021"
publish = false

[dependencies]
alphanumeric-sort = "*"
serde = { version = "1", features = ["derive"] }
zip = { version = "*", default-features = false, features = ["deflate"] }
async-trait = "*"
