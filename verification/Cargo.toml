[package]
name = "pot_diff"
version = "0.1.0"
edition = "2021"
publish = false

[dependencies]
ordered-varint = "2.0"
pot = "2.0"
serde = { version = "1", features = ["derive"] }
thiserror = "1"
