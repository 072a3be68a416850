[package]
name = "compress_wi_primes"
version = "0.1.0"
edition = "2021"
publish = false

[dependencies]
num_cpus = "*"
partial-min-max = "*"
plotters = "0.3"
rand = "0.8"
thread-priority = "*"
