[package]
name = "zokrates_field"
version = "0.3.3"
edition = "2021"
publish = false

[dependencies]
num-bigint = { version = "0.2", features = ["serde"] }
num-integer = "0.1"
num-traits = "0.2"
pairing_ce = "*"
serde = { version = "1", features = ["derive"] }
libc = "0.2"

[dev-dependencies]
rand = "0.4"
