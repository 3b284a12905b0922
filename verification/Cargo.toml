[package]
name = "backtesting"
version = "0.1.0"
edition = "2021"
publish = false

[dependencies]
bdays = "*"
chrono = "*"
csv = "*"
log = "*"
rustc-hash = "*"
serde = "*"
serde_derive = "*"
simple-error = "*"
