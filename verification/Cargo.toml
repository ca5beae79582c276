[package]
name = "logos_core"
version = "0.1.0"
edition = "2021"
publish = false

[dependencies]
regex-syntax = "0.8"
itertools = "0.13"
syn = { version = "2", features = ["full"] }
quote = "1"
proc-macro2 = "1"
indexmap = "2"
