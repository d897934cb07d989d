[package]
name = "kvs"
version = "0.1.0"
edition = "2021"
publish = false

[dependencies]
rand = "=0.8.8"
parking_lot = "=0.12.5"
crossbeam = "=0.8.5"
libc = "=0.2.191"
