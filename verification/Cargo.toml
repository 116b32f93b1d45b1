[package]
name = "my_domains"
version = "0.1.0"
edition = "2021"
publish = false

[dependencies]
itertools = "0.10"
futures = "0.3"
whois-rust = { version = "1", features = ["tokio"] }
tokio = { version = "1", features = ["full"] }
hyper = { version = "0.14", features = ["full"] }
config = "0.11"
askama = "0.12"
lazy_static = "1"
pretty_env_logger = "0.4"
