[package]
name = "bloom1"
version = "0.1.0"
edition = "2021"
publish = false

[dependencies]
xoodyak = "=0.8.5"
