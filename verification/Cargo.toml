[package]
name = "dataflow_join"
version = "0.1.0"
edition = "2021"
publish = false

[dependencies]
timely = "*"
columnar = "*"
mmap = "*"
time = "*"
