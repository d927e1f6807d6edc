[package]
name = "const_regex"
version = "0.1.0"
edition = "2021"
publish = false

[dependencies]
regex-automata = "0.1"
proc-macro2 = "1"
quote = "1"
syn = { version = "2", features = ["full"] }
