[package]
name = "mosfhet"
version = "0.1.0"
edition = "2021"
publish = false

[dependencies]
rand = "0.8"
clap = { version = "4", features = ["derive"] }
csv = "1"
xz2 = "0.1"
rayon = "1"
thread_local = "1"
indicatif = { version = "0.17", features = ["rayon"] }
wisard = "*"
bitvec = "1"
serde = "1"
libc = "0.2"
