[package]
name = "rwc"
version = "0.1.0"
edition = "2021"
publish = false

[dependencies]
clap = "2"
colored = "2"
hashbrown = "0.14"
pcre2 = "0.2"
rand = "0.8"
rayon = "1"
walkdir = "2"
