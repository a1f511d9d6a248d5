[package]
name = "tmpmemstore"
version = "0.1.0"
edition = "2021"
publish = false

[dependencies]
anyhow = "*"
clap = { version = "*", features = ["derive"] }
libc = "*"
rpassword = "*"
sysinfo = "*"
tempfile = "*"
unix-cred = "*"
