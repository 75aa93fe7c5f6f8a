[package]
name = "markov"
version = "0.1.0"
edition = "2021"
publish = false

[dependencies]
string-interner = "*"
html-escape = "*"
rand = "*"
actson = { version = "*", features = ["tokio"] }
bytes = "*"
futures = "*"
reqwest = { version = "*", default-features = false, features = ["stream"] }
tokio = { version = "*", features = ["rt-multi-thread", "macros", "sync", "io-util", "time"] }
