[package]
name = "choki"
version = "0.1.0"
edition = "2021"
publish = false

[dependencies]
bumpalo = "3"
flate2 = "1"
num_cpus = "1"
threadpool = "1"
urlencoding = "2"
