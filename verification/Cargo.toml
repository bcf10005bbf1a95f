[package]
name = "ofs_convert"
version = "0.1.0"
edition = "2021"
publish = false

[dependencies]
anyhow = "1"
chrono = "0.4"
clap = "2"
fs2 = "0.4"
memmap = "0.7"
nix = "0.23"
text_io = "0.1"
ucs2 = "0.3"
uuid = { version = "1", features = ["v4"] }
