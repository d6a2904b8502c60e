[package]
name = "exact_diagonalization"
version = "0.1.0"
edition = "2021"

[dependencies]
fnv = "1.0"
num = "0.4"
num-complex = "0.4"
ndarray = "0.15"
ndarray-linalg = "0.16"
