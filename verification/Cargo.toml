[package]
name = "vobsubocr"
version = "0.1.0"
edition = "2021"
publish = false

[dependencies]
clap = { version = "*", features = ["derive"] }
image = "*"
leptess = "*"
rayon = "*"
scoped-tls-hkt = "*"
subparse = "*"
vobsub = "*"
