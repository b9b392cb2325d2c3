[package]
name = "permkit"
version = "0.1.0"
edition = "2021"
publish = false

[dependencies]
itertools = "0.14"
inventory = "0.3"
serde = "1"
utoipa = "5"
syn = { version = "2", features = ["full"] }
quote = "1"
proc-macro2 = "1"
