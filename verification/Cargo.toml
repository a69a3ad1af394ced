[package]
name = "hash_lyzer"
version = "0.1.0"
edition = "2021"
publish = false

[dependencies]
libxml = "=0.3.22"
xmlsec = "=0.3.0"
openssl = "=0.10.81"
thiserror = "=2.0.21"
eframe = { version = "=0.37.0", default-features = false, features = ["glow"] }
egui = { version = "=0.37.0", default-features = false }
rfd = "*"
