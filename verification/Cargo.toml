[package]
name = "take_put_back"
version = "0.1.0"
edition = "2021"
publish = false

[dependencies]
petgraph = "*"
nonempty = "*"
num_cpus = "*"
