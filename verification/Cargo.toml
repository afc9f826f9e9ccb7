[package]
name = "ahc_solvers"
version = "0.1.0"
edition = "2021"
publish = false

[dependencies]
rand = "0.8.5"
rand_chacha = "0.3.1"
rand_pcg = "0.3.1"
fixedbitset = "0.4.2"
proconio = "0.4.5"
