[package]
name = "make_up_number"
version = "0.1.0"
edition = "2021"
publish = false

[dependencies]
dashu = "*"
