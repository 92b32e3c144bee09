[package]
name = "orbit"
version = "0.1.0"
edition = "2021"
publish = false

[dependencies]
x86_64 = { version = "=0.15.5", default-features = false, features = ["instructions"] }
bootloader_api = "=0.11.17"
spin = "=0.12.3"
uart_16550 = "=0.9.0"
