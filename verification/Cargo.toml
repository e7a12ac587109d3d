[package]
name = "allesatt"
version = "0.1.0"
edition = "2021"
publish = false

[dependencies]
time = "0.3"
rand = "0.8"
clap = { version = "4", features = ["derive"] }
humantime = "2"
atty = "0.2"
libc = "0.2"
