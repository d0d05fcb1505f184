[package]
name = "fms"
version = "0.1.0"
edition = "2021"
publish = false

[dependencies]
plist = "*"
walkdir = "*"
xattr = "*"
