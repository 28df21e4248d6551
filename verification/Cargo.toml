[package]
name = "pumpkin_wire"
version = "0.1.0"
edition = "2021"
publish = false

[dependencies]
heck = "0.5"
serde_json = "1"
quote = "1"
proc-macro2 = "1"
