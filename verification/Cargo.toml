[package]
name = "ed_balance"
version = "0.1.0"
edition = "2021"
publish = false

[dependencies]
rand = "=0.8.8"
serde_json = "=1.0.151"
structopt = "=0.3.26"
chrono = "=0.4.45"
itertools = "=0.10.5"
