[package]
name = "halo2_codec"
version = "0.1.0"
edition = "2021"
publish = false

[dependencies]
ff = "=0.13.1"
halo2curves = { version = "=0.10.0", features = ["std"] }
maybe-rayon = "=0.1.1"
rs_merkle = "=1.5.0"
sha3 = "=0.10.9"
