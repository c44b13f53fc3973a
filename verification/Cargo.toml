[package]
name = "weaver"
version = "0.2.0"
edition = "2021"
publish = false

[dependencies]
chardetng = "=0.1.17"
encoding_rs = "=0.8.44"
mallard = "=0.1.0"
memmap2 = "=0.9.12"
redwing = "=0.4.0"
regex = "=1.13.1"
tempfile = "=3.27.0"
