[package]
name = "aquarii"
version = "0.1.0"
edition = "2021"
publish = false

[dependencies]
arrayvec = "0.7"
ctrlc = "3"
rand = "0.9"
rand_core = "0.9"
rand_xorshift = "0.4"
viriformat = "*"
