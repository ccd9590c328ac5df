[package]
name = "hat_backup"
version = "0.1.0"
edition = "2021"
publish = false

[dependencies]
hex = "0.4"
blake2 = "0.10"
chacha20poly1305 = "0.10"
snap = "1"
flate2 = "1"
clap = "4"
