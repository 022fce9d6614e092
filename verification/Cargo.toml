[package]
name = "vec_collections"
version = "0.1.0"
edition = "2021"
publish = false

[dependencies]
regex = "=1.13.1"
smallvec = "=1.16.4"
num-traits = "=0.2.19"

[dev-dependencies]
testdrop = "0.1"
