[package]
name = "founder"
version = "0.1.0"
edition = "2021"
publish = false

[dependencies]
anyhow = "*"
bstr = "*"
clap = "2"
crossbeam-utils = "*"
dirs = "*"
duct = "*"
os_pipe = "*"
path_abs = "*"
