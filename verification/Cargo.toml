[package]
name = "gitpatch"
version = "0.1.0"
edition = "2021"
publish = false

[dependencies]
chrono = "0.4"

[dev-dependencies]
nom = "7"
nom_locate = "4"
