[package]
name = "crabz"
version = "0.1.0"
edition = "2021"
publish = false

[dependencies]
anyhow = "1"
env_logger = "*"
flate2 = "1"
gzp = { version = "*", default-features = false, features = ["deflate_rust"] }
log = "0.4"
num_cpus = "1"
structopt = "0.3"
