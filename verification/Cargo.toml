[package]
name = "tenxten"
version = "0.1.0"
edition = "2021"
publish = false

[dependencies]
priority-queue = "*"
rand = "0.8"
structopt = "0.3"
