[package]
name = "sview_fmindex"
version = "0.1.0"
edition = "2021"
publish = false

[dependencies]
zerocopy = "0.8"
num-integer = "0.1"
thiserror = "2"
clap = { version = "4", features = ["derive"] }
memmap2 = "0.9"
rand = "0.8"
lt-fm-index = "0.7"
