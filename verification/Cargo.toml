[package]
name = "hashcode2020"
version = "0.1.0"
edition = "2021"
publish = false

[dependencies]
clap = "2"
num-format = "0.4"
rand = "0.7"
