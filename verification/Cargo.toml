[package]
name = "pipe_maze"
version = "0.1.0"
edition = "2021"
publish = false

[dependencies]
memchr = "*"
hashbrown = "*"
link-cplusplus = "*"
