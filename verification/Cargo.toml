[package]
name = "enum_vec"
version = "0.1.0"
edition = "2021"
publish = false

[dependencies]
smallvec = "1"
bit-set = "*"
syn = { version = "2", features = ["full"] }
quote = "1"
proc-macro2 = "1"
