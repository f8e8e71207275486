[package]
name = "most_recently"
version = "0.1.0"
edition = "2021"
publish = false

[dependencies]
anyhow = "1"
clap = "2"
const_format = "0.2"
ignore = "0.4"
itertools = "0.10"
strum = { version = "0.20", features = ["derive"] }
tracing = "0.1"
tracing-subscriber = "0.2"
