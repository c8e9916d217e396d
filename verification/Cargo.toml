[package]
name = "kpr"
version = "0.1.0"
edition = "2021"
publish = false

[dependencies]
bincode = "=1.3.3"
chrono = "=0.4.45"
clap = { version = "=4.6.7", features = ["derive"] }
colored = "2"
dirs = "=5.0.1"
fs2 = "=0.4.3"
rev_buf_reader = "=0.3.0"
rust-stemmers = "=1.2.0"
textwrap = "=0.16.4"
unicode-segmentation = "=1.13.3"
