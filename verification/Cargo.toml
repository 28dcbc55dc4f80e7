[package]
name = "cubicle"
version = "0.1.0"
edition = "2021"
publish = false

[dependencies]
shlex = "=2.0.1"
tar = "=0.4.46"
toml = "*"
