[package]
name = "shadenbt"
version = "0.1.0"
edition = "2021"
publish = false

[dependencies]
openssl = "0.10"
cryptostream = "0.3"
zeroize = "1"
getrandom = "0.2"
rand = "0.8"
uuid = { version = "0.8", features = ["v1"] }
