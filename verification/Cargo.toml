[package]
name = "tasks_rust"
version = "0.1.0"
edition = "2021"
publish = false

[dependencies]
base64 = "0.22"
sha1 = "0.10"
urlencoding = "2"
