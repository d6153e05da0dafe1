[package]
name = "poseidon_crh"
version = "0.1.0"
edition = "2021"
publish = false

[dependencies]
ark-ff = "0.3"
ark-ed-on-bn254 = "0.3"
ark-r1cs-std = "0.3"
ark-relations = "0.3"
