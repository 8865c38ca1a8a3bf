[package]
name = "router"
version = "0.1.0"
edition = "2021"

[dependencies]
http = "=1.5.0"
