[package]
name = "mizu"
version = "0.1.0"
edition = "2021"
publish = false

[dependencies]
csv = "*"
chrono = "*"
libc = "*"
regex-lite = "*"
termion = "*"
rustyline = "*"
filetime = "*"
