[package]
name = "sliru_tools"
version = "0.1.0"
edition = "2021"
publish = false

[dependencies]
md5 = "*"
sha1 = "*"
sha2 = "*"
reqwest = { version = "*", default-features = false, features = ["blocking"] }
