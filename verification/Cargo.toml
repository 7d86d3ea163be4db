[package]
name = "stream_resp"
version = "0.1.0"
edition = "2021"
publish = false

[dependencies]
atoi = "*"
bytes = "*"
memchr = "*"
