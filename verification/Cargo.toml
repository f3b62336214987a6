[package]
name = "lnp_channel"
version = "0.1.0"
edition = "2021"
publish = false

[dependencies]
bitcoin = "0.28"
lnp2p = "*"
