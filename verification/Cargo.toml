[package]
name = "pdfboss_core"
version = "0.1.0"
edition = "2021"
publish = false

[dependencies]
memchr = "=2.8.3"

[dev-dependencies]
flate2 = "1"
