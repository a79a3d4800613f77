[package]
name = "redbpf"
version = "0.1.0"
edition = "2021"
publish = false

[dependencies]
goblin = "0.10.7"
zero = "=0.1.3"
libc = "=0.2.191"
bpf-sys = "0.1.1"
lazy-socket = "=0.3.0"
