[package]
name = "resource_monitor"
version = "0.1.0"
edition = "2021"
publish = false

[dependencies]
sysinfo = { version = "0.37", default-features = false, features = ["system"] }
