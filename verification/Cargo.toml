[package]
name = "blinkview"
version = "0.1.1"
edition = "2021"
publish = false

[dependencies]
image = "0.25"
minifb = "*"
