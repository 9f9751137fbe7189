[package]
name = "gol"
version = "0.1.1"
edition = "2021"
publish = false

[dependencies]
threadpool = "1"
rand = "*"
clap = "4"
