[package]
name = "check-broken-packages"
version = "0.1.0"
edition = "2021"
publish = false

[dependencies]
ansi_term = "=0.12.1"
anyhow = "=1.0.104"
crossbeam = "=0.8.5"
glob = "=0.3.4"
indicatif = "0.17"
log = "=0.4.34"
num_cpus = "=1.17.0"
simple_logger = "=5.2.0"
