[package]
name = "augr"
version = "0.2.0"
edition = "2021"
publish = false

[dependencies]
sha2 = "0.10"
chrono = "0.4"
directories = "*"
