[package]
name = "rust_udev"
version = "0.1.0"
edition = "2021"
publish = false

[dependencies]
libc = "*"
clap = "*"
crossbeam = "*"
env_logger = "*"
log = "*"
nix = { version = "0.29", features = ["socket", "poll", "fs", "user"] }
notify = "*"
rayon = "*"
users = "*"
