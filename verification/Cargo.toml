[package]
name = "kernel"
version = "0.1.0"
edition = "2021"
publish = false

[dependencies]
enumflags2 = "0.7"
num_enum = "0.7"
static_assertions = "1.1"
