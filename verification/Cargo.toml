[package]
name = "osv2gpx"
version = "0.1.0"
edition = "2021"
publish = false

[dependencies]
chrono = "=0.4.45"
quick-xml = "=0.38.4"
