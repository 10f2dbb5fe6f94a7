[package]
name = "fast-math"
version = "0.1.0"
edition = "2021"
publish = false

[dependencies]
ieee754 = "=0.2.6"
ndarray = "=0.11.2"
optimize = "=0.1.0"

[dev-dependencies]
quickcheck = "0.9"
