[package]
name = "nlcep"
version = "0.1.0"
edition = "2021"
publish = false

[dependencies]
jiff = { version = "=0.2.38", features = ["serde"] }
lazy-regex = "=3.6.2"
serde = { version = "=1.0.229", features = ["derive"] }
thiserror = "=1.0.69"
