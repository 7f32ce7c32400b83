[package]
name = "brainfsck"
version = "0.1.0"
edition = "2021"
publish = false

[dependencies]
clap = { version = "=4.6.7", features = ["derive"] }
color-eyre = "=0.6.5"
inkwell = { version = "=0.2.0", features = ["llvm14-0-no-llvm-linking"] }
path-clean = "=1.0.1"
tempfile = "=3.27.0"
