[package]
name = "chat_server"
version = "0.1.0"
edition = "2021"
publish = false

[dependencies]
byteorder = "1"
threadpool = "1"
ctrlc = "3"
