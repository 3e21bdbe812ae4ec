[package]
name = "e2etest"
version = "0.1.0"
edition = "2021"
publish = false

[dependencies]
convert_case = "*"
itertools = "*"
tokio = { version = "*", features = ["full"] }
futures = "*"
async-backtrace = "*"
tracing = "*"
linkme = "*"
syn = { version = "2", features = ["full"] }
quote = "1"
proc-macro2 = "1"
