[package]
name = "lightning-block-sync"
version = "0.0.1"
edition = "2021"
publish = false

[dependencies]
bitcoin = "0.23"
