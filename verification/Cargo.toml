[package]
name = "oscen"
version = "0.1.0"
edition = "2021"
publish = false

[dependencies]
arrayvec = "0.7"
slotmap = "1"
hound = "3"
arc-swap = "1"
rtrb = "0.3"
