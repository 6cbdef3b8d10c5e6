[package]
name = "winbackup_fuse"
version = "0.1.0"
edition = "2021"
publish = false

[dependencies]
encoding_rs = "*"
fuser = "*"
glob = "*"
indicatif = "*"
libc = "*"
ouroboros = "*"
zip = { version = "*", default-features = false, features = ["deflate"] }
