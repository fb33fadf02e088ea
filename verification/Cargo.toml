[package]
name = "topos"
version = "0.1.0"
edition = "2021"
publish = false

[dependencies]
smallvec = "1"
libm = "0.2"
static_assertions = "1"
