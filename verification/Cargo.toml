[package]
name = "specmc_base"
version = "0.1.0"
edition = "2021"

[dependencies]
strtoint = "*"
thiserror = "1"
