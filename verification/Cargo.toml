[package]
name = "peter_grep"
version = "0.1.0"
edition = "2021"
publish = false

[dependencies]
clap = { version = "=4.6.7", features = ["derive"] }
isatty = "=0.1.9"
log = "=0.4.34"
pretty_env_logger = "=0.5.0"
