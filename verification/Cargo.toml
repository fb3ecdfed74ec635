[package]
name = "filecoin_pieces"
version = "0.1.0"
edition = "2021"
publish = false

[dependencies]
sha2 = "0.10"
hex = "0.4"
anyhow = "1"
log = "0.4"

[dev-dependencies]
rand = "0.7"
rand_xorshift = "0.2"
