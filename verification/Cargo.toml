[package]
name = "cdcl_sat"
version = "0.1.0"
edition = "2021"
publish = false

[dependencies]
slotmap = "*"
clap = { version = "*", features = ["derive"] }
