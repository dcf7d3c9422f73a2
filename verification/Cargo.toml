[package]
name = "dm_simu_rs"
version = "0.1.0"
edition = "2021"

[dependencies]
num-complex = "=0.4.6"
num-traits = "=0.2.19"
