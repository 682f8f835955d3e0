[package]
name = "tatoeba_frequency"
version = "0.1.0"
edition = "2021"
publish = false

[dependencies]
jieba-rs = "*"
unicode-normalization = "*"
