[package]
name = "succinct"
version = "0.5.2"
edition = "2021"
publish = false

[dependencies]
byteorder = "1"
num-traits = "0.2"

[dev-dependencies]
quickcheck = "1"
