[package]
name = "spring_cartographer_rs"
version = "0.1.0"
edition = "2021"
publish = false

[dependencies]
binrw = "=0.15.2"
texpresso = "=2.0.2"
