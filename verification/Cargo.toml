[package]
name = "srp_phat"
version = "0.1.0"
edition = "2021"
publish = false

[dependencies]
rayon = "1"
realfft = "3"
rustler = "*"
