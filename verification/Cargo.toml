[package]
name = "mockery"
version = "0.1.0"
edition = "2021"
publish = false

[dependencies]
itertools = "*"
clang = { version = "2", features = ["clang_10_0", "runtime"] }
clap = { version = "*", features = ["derive"] }
colored = "*"
