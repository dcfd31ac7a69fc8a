[package]
name = "pdpfs"
version = "0.1.0"
edition = "2021"
publish = false

[dependencies]
anyhow = "1"
bytebuffer = "2"
chrono = "0.4"
docopt = "1"
join-string = "*"
lazy_static = "1"
neon = "1"
pretty-hex = "*"
radix50 = "*"
serde = { version = "1", features = ["derive"] }
serde_with = "3"
strum = { version = "0.25", features = ["derive"] }
whoami = "1"
