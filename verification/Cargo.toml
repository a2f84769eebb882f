[package]
name = "solang"
version = "0.1.0"
edition = "2021"
publish = false

[dependencies]
num-bigint = "0.3"
num-traits = "0.2"
tiny-keccak = "1.5"
hex = "0.4"
unescape = "0.1"
serde = { version = "1", features = ["derive"] }
serde_json = "1"
clap = "2.33"
