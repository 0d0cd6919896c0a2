[package]
name = "rusty_pandas"
version = "0.1.0"
edition = "2021"
publish = false

[dependencies]
rayon = "1"
num-traits = "0.2"
glob = "0.3"
prettytable-rs = "0.10"
rand = "0.8"
pyo3 = "0.20"
