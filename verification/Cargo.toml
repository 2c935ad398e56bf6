[package]
name = "dusk_wallet"
version = "0.1.0"
edition = "2021"
publish = false

[dependencies]
rkyv = "0.7"
futures = "0.3"
konst = "0.3"
