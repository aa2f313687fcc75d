[package]
name = "cannyls_bencher"
version = "0.1.0"
edition = "2021"
publish = false

[dependencies]
rand = "0.7"
cannyls = "0.9"
chrono = "0.4"
structopt = "0.3"
futures = "0.1"
fibers_global = "0.1"
fibers_http_server = "0.1"
