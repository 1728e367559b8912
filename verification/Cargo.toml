[package]
name = "page_db"
version = "1.0.0"
edition = "2021"
publish = false

[dependencies]
thiserror = "2"
libc = "0.2"
serde = { version = "1", features = ["derive"] }
