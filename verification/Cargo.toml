[package]
name = "csv2svg"
version = "0.1.0"
edition = "2021"
publish = false

[dependencies]
anyhow = "*"
argh = "*"
chrono = "*"
crossterm = "*"
csv = "*"
directories-next = "*"
open = "*"
svg = "*"
tempfile = "*"
