[package]
name = "pickle"
version = "0.1.0"
edition = "2021"
publish = false

[dependencies]
unicode_names2 = "=4.0.0"
