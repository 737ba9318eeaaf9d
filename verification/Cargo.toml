[package]
name = "lib_meta_fix"
version = "0.1.0"
edition = "2021"
publish = false

[dependencies]
toml_edit = "*"
walkdir = "*"
notify = "*"
clap = { version = "*", features = ["derive"] }
env_logger = "*"
log = "*"
