[package]
name = "genesis"
version = "0.1.0"
edition = "2021"
publish = false

[dependencies]
blake3 = "=1.5.4"
smallvec = "=1.16.4"
arrayvec = "=0.7.8"
thiserror = "=1.0.69"
