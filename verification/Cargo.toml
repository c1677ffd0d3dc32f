[package]
name = "modem_socket"
version = "0.1.0"
edition = "2021"
publish = false

[dependencies]
at-commands = "=0.5.8"
