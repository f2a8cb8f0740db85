[package]
name = "mst_tour"
version = "0.1.0"
edition = "2021"
publish = false

[dependencies]
regex = "1"
exitcode = "1"
