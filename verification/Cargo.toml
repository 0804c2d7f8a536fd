[package]
name = "varde"
version = "0.1.0"
edition = "2021"
publish = false

[dependencies]
unicode-width = "=0.2.3"
linkify = "=0.11.0"
git2 = { version = "=0.21.0", default-features = false }
syntect = "=5.3.0"
two-face = "=0.5.2"
serde_json = "=1.0.154"
terminput = "0.5"
