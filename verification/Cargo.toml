[package]
name = "inet"
version = "0.1.0"
edition = "2021"
publish = false

[dependencies]
crossbeam-queue = "0.3"
color-eyre = "0.6"

[dev-dependencies]
nom = "7"
