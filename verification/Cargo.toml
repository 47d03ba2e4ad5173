[package]
name = "rust_calamine"
version = "0.1.0"
edition = "2021"
publish = false

[dependencies]
calamine = "=0.37.0"
napi = "=2.16.17"
napi-derive = "=2.16.13"
regex = "=1.13.1"
umya-spreadsheet = "2"
