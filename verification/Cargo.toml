[package]
name = "dsa_playground"
version = "0.1.0"
edition = "2021"
publish = false

[dependencies]
convert_case = "*"
rand = "0.8"
regex = "1"
termion = "*"
