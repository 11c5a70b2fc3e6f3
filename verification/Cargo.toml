[package]
name = "falcon_plonky3"
version = "0.1.0"
edition = "2021"
publish = false

[dependencies]
p3-air = "*"
p3-field = "*"
p3-koala-bear = "*"
p3-matrix = "*"
p3-uni-stark = "*"
p3-challenger = "*"
p3-commit = "*"
p3-dft = "*"
p3-fri = "*"
p3-merkle-tree = "*"
p3-symmetric = "*"
p3-keccak = "*"
p3-keccak-air = "*"
p3-util = "*"
rand = { version = "*", features = ["small_rng"] }
