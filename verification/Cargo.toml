[package]
name = "wgsl_imports"
version = "0.1.0"
edition = "2021"
publish = false

[dependencies]
regex = "=1.13.1"
data-encoding = "=2.11.1"
naga = "=24.0.0"
naga_oil = "=0.17.1"
naga-to-tokenstream = "=0.8.0"
prettyplease = "=0.2.37"
quote = "=1.0.47"
syn = "=2.0.119"
