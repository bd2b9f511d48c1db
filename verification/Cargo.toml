[package]
name = "data_reader"
version = "0.1.0"
edition = "2021"
publish = false

[dependencies]
anyhow = "1"
bytecount = "0.6"
lexical = "5"
memchr = "2"
memmap = "0.7"
