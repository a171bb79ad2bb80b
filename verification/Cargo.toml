[package]
name = "chain_sync"
version = "0.1.0"
edition = "2021"
publish = false

[dependencies]
num-bigint = "0.4"
async-std = "1"
log = "0.4"
libp2p = { version = "*", default-features = false }
