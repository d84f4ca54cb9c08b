[package]
name = "branch_core"
version = "0.1.0"
edition = "2021"
publish = false

[dependencies]
nanoid = "0.4"
time = "0.3"
error-stack = "0.4"
thiserror = "1"
