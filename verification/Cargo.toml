[package]
name = "backer_list"
version = "0.1.0"
edition = "2021"
publish = false

[dependencies]
md5 = "*"
data-encoding = "*"
