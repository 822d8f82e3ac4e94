[package]
name = "rustyjson"
version = "0.1.0"
edition = "2021"
publish = false

[dependencies]
flate2 = "=1.1.10"
itoa = "=1.0.18"
lexical-core = "=1.0.6"
num-bigint = "=0.4.8"
ryu = "=1.0.23"
simdutf8 = "=0.1.5"
smallvec = "=1.16.4"
rustler = { version = "=0.39.0", features = ["big_integer"] }
