[package]
name = "bm"
version = "0.1.0"
edition = "2021"
publish = false

[dependencies]
sha2 = "=0.11.1"
primitive-types = { version = "=0.14.0", default-features = false }
syn = "0.15"
quote = "0.6"
proc-macro2 = "0.4"
deriving = "=0.1.3"
