[package]
name = "dedupe"
version = "0.1.0"
edition = "2021"

[dependencies]
sha1 = "0.10"
