[package]
name = "oxygendb"
version = "0.1.0"
edition = "2021"
publish = false

[dependencies]
fs2 = "0.4"
memmap = "0.5"
