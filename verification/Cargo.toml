[package]
name = "tulip_rs_ffi"
version = "0.1.0"
edition = "2021"
publish = false

[dependencies]
tulip_rs = "=0.2.10"
