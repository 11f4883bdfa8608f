[package]
name = "hap_transport"
version = "0.1.0"
edition = "2021"
publish = false

[dependencies]
aead = "*"
byteorder = "*"
bytes = "*"
chacha20poly1305 = "*"
futures = "*"
log = "*"
ring = "*"
tokio = { version = "*", features = ["net", "io-util", "rt"] }
uuid = "*"
