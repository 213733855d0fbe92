[package]
name = "kmer_merger"
version = "0.1.0"
edition = "2021"
publish = false

[dependencies]
clap = "2"
env_logger = "0.4"
log = "0.3"
