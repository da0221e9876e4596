[package]
name = "cotopha"
version = "0.1.0"
edition = "2021"
publish = false

[dependencies]
bsdiff = "*"
color-print = "*"
compact_str = "*"
flate2 = "*"
foldhash = "*"
lexopt = "*"
sha3 = "*"
