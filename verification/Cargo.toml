[package]
name = "nexus"
version = "0.1.0"
edition = "2021"
publish = false

[dependencies]
nexus-stats-core = "*"
nexus-ascii = "*"
