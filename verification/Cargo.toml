[package]
name = "name_engine"
version = "0.1.0"
edition = "2021"

[dependencies]
thiserror = "1"

[dev-dependencies]
rand = "0.8"
