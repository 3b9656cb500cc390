[package]
name = "router"
version = "0.1.0"
edition = "2021"
publish = false

[dependencies]
http = "=0.1.21"
regex = "=1.13.1"
url = "=2.5.8"
