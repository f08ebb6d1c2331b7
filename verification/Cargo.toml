[package]
name = "api_gc"
version = "0.1.0"
edition = "2021"
publish = false

[dependencies]
autocxx-parser = "=0.5.2"

[dev-dependencies]
syn = "1"
proc-macro2 = "1"
