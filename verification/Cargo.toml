[package]
name = "samplerack"
version = "0.1.0"
edition = "2021"
publish = false

[dependencies]
rubato = "=3.0.0"
