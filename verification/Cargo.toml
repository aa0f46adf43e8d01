[package]
name = "usartscreen"
version = "0.1.0"
edition = "2021"
publish = false

[dependencies]
defmt = "=1.2.0"
defmt-rtt = "=1.3.1"
embassy-stm32 = { version = "=0.6.0", features = ["defmt", "stm32f407vg", "time-driver-any", "memory-x"] }
embassy-time = { version = "=0.5.1", features = ["defmt"] }
embedded-hal-nb = "=1.0.0"
panic-probe = { version = "=1.0.0", features = ["print-defmt"] }
