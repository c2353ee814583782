[package]
name = "bonk"
version = "0.1.0"
edition = "2021"
publish = false

[dependencies]
num_cpus = "1"
proc-macro2 = "1"
quote = "1"
syn = "1"
