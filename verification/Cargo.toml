[package]
name = "brc"
version = "0.1.0"
edition = "2021"
publish = false

[dependencies]
dashmap = "*"
memchr = "*"
memmap2 = "*"
parking_lot = "*"
rayon = "*"
