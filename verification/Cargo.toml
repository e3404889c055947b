[package]
name = "cosync"
version = "0.3.0"
edition = "2021"
publish = false

[dependencies]
parking_lot = "0.12"
