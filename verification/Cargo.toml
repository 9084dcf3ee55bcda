[package]
name = "habit_printer"
version = "0.1.0"
edition = "2021"
publish = false

[dependencies]
chrono = { version = "0.4", features = ["serde"] }
itertools = "0.10"
serde = { version = "1", features = ["derive"] }
serde_json = "1"
lazy_static = "1"
cfg-if = "0.1"
rouille = "3"
job_scheduler = "1"
serial = "0.4"
google-calendar3 = "1"
yup-oauth2 = "1"
hyper = "0.10"
hyper-rustls = "0.6"
reqwest = { version = "0.9", default-features = false, features = ["rustls-tls"] }
