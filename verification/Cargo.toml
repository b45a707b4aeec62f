[package]
name = "zeromatch"
version = "0.1.0"
edition = "2021"
publish = false

[dependencies]
memchr = "2"
napi = "3"
napi-derive = "3"
