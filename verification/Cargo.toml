[package]
name = "striped_ledger"
version = "0.1.0"
edition = "2021"
publish = false

[dependencies]
rand = "0.8"
rand_pcg = "0.3"
structopt = "0.3"
