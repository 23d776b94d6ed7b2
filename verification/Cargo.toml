[package]
name = "tlb_simulator"
version = "0.1.0"
edition = "2021"
publish = false

[dependencies]
rand = "*"
clap = { version = "*", features = ["derive"] }
json = "*"
tabled = "*"
