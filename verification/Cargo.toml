[package]
name = "ipcd"
version = "0.1.0"
edition = "2021"
publish = false

[dependencies]
redox_syscall = "=0.5.18"
redox-scheme = "=0.2.4"
redox_event = "=0.4.0"
libredox = "=0.1.3"
redox-daemon = "=0.1.3"
