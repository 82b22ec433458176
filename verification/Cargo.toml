[package]
name = "mmkv"
version = "0.1.0"
edition = "2021"
publish = false

[dependencies]
aes = "0.8"
eax = "0.5"
aead = { version = "0.5", features = ["alloc", "stream", "getrandom"] }
libc = "0.2"
chrono = "0.4"
once_cell = "1"
