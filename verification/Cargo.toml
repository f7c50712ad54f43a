[package]
name = "codexfs"
version = "0.1.0"
edition = "2021"
publish = false

[dependencies]
tlsh-fixed = "*"
xz2 = "*"
clap = { version = "*", features = ["derive"] }
fuser = "*"
libc = "*"
log = "*"
env_logger = "*"
