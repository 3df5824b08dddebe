[package]
name = "code_2015"
version = "0.1.0"
edition = "2021"
publish = false

[dependencies]
md5 = "0.7"
regex = "1"
serde_json = "1"
