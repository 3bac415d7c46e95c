[package]
name = "rule_ordering"
version = "0.1.0"
edition = "2021"
publish = false

[dependencies]
anyhow = "1"
