[package]
name = "bignum_sub"
version = "0.1.0"
edition = "2021"
publish = false

[dependencies]
smallvec = { version = "=1.16.4", default-features = false }

[dev-dependencies]
num-traits = { version = "=0.2.19", default-features = false }
