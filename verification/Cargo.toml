[package]
name = "ioubuf"
version = "0.1.0"
edition = "2021"
publish = false

[dependencies]
bytes = "1"
flume = { version = "0.10", default-features = false }
libc = "0.2"
memmap2 = "0.5"
smallvec = "1"
thiserror = "1"
ubyte = "0.10"
