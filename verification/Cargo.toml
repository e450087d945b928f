[package]
name = "screenmap"
version = "0.1.0"
edition = "2021"
publish = false

[dependencies]
csv = "*"
fuzzy-matcher = "=0.3.7"
sqlx = { version = "=0.9.0", default-features = false, features = ["postgres", "runtime-tokio"] }
tokio = { version = "=1.53.2", default-features = false, features = ["rt-multi-thread", "macros"] }
