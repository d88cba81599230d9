[package]
name = "moss_model"
version = "0.1.0"
edition = "2021"
publish = false

[dependencies]
num_cpus = "=1.17.0"
opencv = "=0.101.1"
ort = { version = "=2.0.0-rc.10", default-features = false, features = ["std", "load-dynamic"] }
