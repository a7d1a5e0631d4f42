[package]
name = "tekton"
version = "0.1.0"
edition = "2021"
publish = false

[dependencies]
bitreader = "0.3"
is_prime = "*"
num = "0.4"
rand = "0.8"

[dev-dependencies]
aes = "0.8"
rand_distr = "0.4"
