[package]
name = "rust_persist"
version = "0.1.0"
edition = "2021"
publish = false

[dependencies]
siphasher = "0.3"
safemem = "0.3"
lz4_flex = "0.11"
fs2 = "0.4"
memmap = "0.7"
rmp-serde = "1"
serde = "1"

[dev-dependencies]
rand = "0.8"
rand_chacha = "0.3"
