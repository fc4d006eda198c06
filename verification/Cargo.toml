[package]
name = "relish"
version = "0.1.0"
edition = "2021"
publish = false

[dependencies]
bytes = "1"
chrono = { version = "0.4", default-features = false }
proc-macro2 = "1"
quote = "1"
syn = "2"
thiserror = "1"
