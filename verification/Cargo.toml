[package]
name = "elbie"
version = "0.1.0"
edition = "2021"
publish = false

[dependencies]
rand = "0.9"
unicode-normalization = "0.1"
gumdrop = "0.8"
thiserror = "2"
csv = "1"
json = "0.12"
html-builder = "*"
prettytable-rs = "0.10"
tabled = "*"
constcat = "*"
