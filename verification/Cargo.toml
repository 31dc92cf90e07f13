[package]
name = "blue_hal"
version = "0.1.0"
edition = "2021"
publish = false

[dependencies]
nb = "=1.1.0"
bytemuck = "=1.25.2"
max3263x = "=0.5.0"
efm32gg11b820 = "=0.9.0"
stm32f4 = { version = "0.15", default-features = false, features = ["stm32f412"] }
