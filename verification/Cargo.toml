[package]
name = "rustyhdf5-format"
version = "0.1.0"
edition = "2021"
publish = false

[dependencies]
byteorder = "1"
flate2 = "1"
rayon = "1"
thiserror = "2"
syn = "2"
quote = "1"
proc-macro2 = "1"
