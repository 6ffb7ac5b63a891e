[package]
name = "othello"
version = "0.1.0"
edition = "2021"
publish = false

[dependencies]
byteorder = "1"
getopts = "0.2"
lazy_static = "1"
log = "0.4"
pretty_env_logger = "0.5"
rand = "0.4"
regex = "1"
