[package]
name = "md-core"
version = "0.3.1"
edition = "2021"
publish = false

[dependencies]
pulldown-cmark = { version = "*", default-features = false, features = ["html"] }
dark-light = "*"
dirs = "*"
open = "*"
rfd = "*"
tao = "*"
wry = "*"
