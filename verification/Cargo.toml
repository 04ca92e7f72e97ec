[package]
name = "static_filez"
version = "0.1.0"
edition = "2021"
publish = false

[dependencies]
fst = "=0.3.5"
deflate = { version = "=0.7.20", features = ["gzip"] }
gzip-header = "=0.3.0"
mime_guess = "=2.0.5"
walkdir = "=2.5.0"
memmap = "=0.7.0"
hyper = "=0.12.36"
tokio = "=0.1.22"
futures = "=0.1.31"
quicli = "=0.4.0"
structopt = "=0.2.18"
clap-port-flag = "=0.3.0"
exitfailure = "=0.5.1"

[dev-dependencies]
flate2 = "=1.1.10"
