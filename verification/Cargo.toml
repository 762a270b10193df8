[package]
name = "trial_linkage"
version = "0.1.0"
edition = "2021"
publish = false

[dependencies]
distance = "*"
tokio = { version = "*", features = ["macros", "rt-multi-thread"] }
tokio-postgres = "*"
deadpool-postgres = "*"
deadpool = "*"
config = "*"
rawsql = "*"
pbr = "*"
log = "*"
env_logger = "*"
chrono = "*"
