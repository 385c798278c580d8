[package]
name = "freedroid"
version = "0.1.0"
edition = "2021"
publish = false

[dependencies]
regex = "1"
serde = { version = "1", features = ["derive"] }
thiserror = "2"
libc = "0.2"
fuser = { version = "0.15", default-features = false }
