[package]
name = "nymp2p"
version = "0.1.0"
edition = "2021"
publish = false

[dependencies]
lmdb = "=0.8.0"
lmdb-sys = "=0.8.0"
log = "=0.4.35"
tokio = { version = "=1.54.1", features = ["full"] }
clap = { version = "=4.6.7", features = ["derive"] }
