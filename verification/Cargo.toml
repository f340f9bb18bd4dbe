[package]
name = "face_stack"
version = "0.1.0"
edition = "2021"
publish = false

[dependencies]
getrandom = "0.3"
glob = "0.3"
image = "0.24"
structopt = "0.3"
