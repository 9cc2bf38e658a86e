[package]
name = "liholiswano"
version = "2.2.0"
edition = "2021"
publish = false

[dependencies]
soroban-sdk = "21"
