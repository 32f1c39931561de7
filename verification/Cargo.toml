[package]
name = "yacht"
version = "0.1.0"
edition = "2021"
publish = false

[dependencies]
ansi_term = "=0.11.0"
clap = "=2.34.0"
llvm-sys = { version = "=70.4.0", features = ["disable-alltargets-init", "no-llvm-linking"] }
rustc-hash = "=1.1.0"
