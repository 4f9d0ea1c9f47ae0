[package]
name = "tpd"
version = "0.1.0"
edition = "2021"

[dependencies]
clap = { version = "3", features = ["derive"] }
home = "0.5"
notify = "4"
