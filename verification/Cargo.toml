[package]
name = "rmdup"
version = "0.1.0"
edition = "2021"
publish = false

[dependencies]
cab = "*"
cached = "*"
chrono = "0.4"
clap = "2"
crc32fast = "1"
delharc = "*"
encoding_rs = "*"
rayon = "1"
regex = "1"
tempfile = "3"
unrar = "*"
zip = "*"
