[package]
name = "msp430_temperature"
version = "0.1.0"
edition = "2021"
publish = false

[dependencies]
msp430fr4133 = "*"
msp430-rt = "*"
panic-msp430 = "*"
