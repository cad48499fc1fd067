[package]
name = "rustorrent"
version = "0.1.0"
edition = "2021"
publish = false

[dependencies]
rust-crypto = "=0.2.36"
rand = "=0.4.6"
url = "=1.7.2"
async-std = "=1.13.2"
futures = "=0.3.34"
getopts = "=0.2.24"
crossterm = "=0.19.0"
crossbeam = "=0.8.5"
once_cell = "=1.21.4"
surf = { version = "=2.3.2", default-features = false, features = ["h1-client-no-tls"] }
