[package]
name = "scheddoc"
version = "0.1.0"
edition = "2021"
publish = false

[dependencies]
json = "0.12"
chrono = "0.4"
curl = "0.4"
anyhow = "1"
tempfile = "3"
