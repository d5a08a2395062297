[package]
name = "brainf"
version = "0.1.0"
edition = "2021"
publish = false

[dependencies]
inkwell = { version = "=0.2.0", features = ["llvm14-0"] }
llvm-sys = { version = "=140.1.3", features = ["prefer-dynamic"] }
clap = { version = "=4.6.7", features = ["derive"] }
colored = "=2.2.0"
log = "=0.4.34"
std-logger = "=0.5.10"
