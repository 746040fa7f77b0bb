[package]
name = "dust-platform"
version = "0.1.0"
edition = "2021"
publish = false

[dependencies]
filesize = "0.2.0"
winapi-util = "0.1"
