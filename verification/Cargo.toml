[package]
name = "pengui_redn"
version = "0.1.0"
edition = "2021"
publish = false

[dependencies]
candle-core = "*"
candle-nn = "*"
rand = "0.8"
