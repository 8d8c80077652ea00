[package]
name = "bash_condexp"
version = "0.1.0"
edition = "2021"
publish = false

[dependencies]
regex = "1"
libc = "0.2"
thiserror = "2"

[dev-dependencies]
tempfile = "3"
