[package]
name = "zeekit"
version = "0.1.0"
edition = "2021"
publish = false

[dependencies]
bellman = "=0.13.1"
bls12_381 = "=0.7.1"
ff = "=0.12.1"
num-bigint = "=0.4.8"
num-integer = "=0.1.47"
rand = "=0.8.8"
serde = { version = "=1.0.229", features = ["derive"] }
