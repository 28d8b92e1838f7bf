[package]
name = "openstark"
version = "0.1.0"
edition = "2021"
publish = false

[dependencies]
zkp-primefield = "=0.1.1"
zkp-u256 = "=0.1.1"
