[package]
name = "tsv_sample"
version = "0.1.0"
edition = "2021"
publish = false

[dependencies]
csv = "1"
rand = "0.8"
structopt = "0.3"
log = "0.4"
env_logger = "0.10"
