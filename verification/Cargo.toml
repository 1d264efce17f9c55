[package]
name = "laby2_repack"
version = "0.1.0"
edition = "2021"
publish = false

[dependencies]
smallvec = "1"
thiserror = "1"
bpaf = "*"
