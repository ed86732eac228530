[package]
name = "alaphios"
version = "0.1.0"
edition = "2021"
publish = false

[dependencies]
sha2 = { version = "=0.10.9", default-features = false }
fatfs = { version = "=0.3.6", default-features = false, features = ["std", "alloc"] }
x86_64 = { version = "=0.15.5", default-features = false, features = ["instructions"] }
spin = "=0.12.3"
uart_16550 = "=0.9.0"
pic8259 = "=0.11.0"
bootloader_api = "=0.11.17"
