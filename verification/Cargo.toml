[package]
name = "league_outcome_simulator"
version = "0.1.0"
edition = "2021"
publish = false

[dependencies]
rand = "0.8"
rand_chacha = "0.3"
rand_distr = "0.4"
rayon = "1"
num_cpus = "1"
lazy_static = "1"
pyo3 = { version = "0.19", features = ["extension-module"] }
