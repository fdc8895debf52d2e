[package]
name = "gnssir"
version = "0.1.0"
edition = "2021"
publish = false

[dependencies]
fletcher = "*"
polyfit-rs = "*"
rayon = "*"
csv = "*"
