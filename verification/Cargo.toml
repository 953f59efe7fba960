[package]
name = "tonos"
version = "0.1.0"
edition = "2021"
publish = false

[dependencies]
num-integer = "*"
clap = "2"
float-cmp = "*"
