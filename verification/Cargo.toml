[package]
name = "nanotero"
version = "0.1.1"
edition = "2021"
publish = false

[dependencies]
thiserror = "2"
