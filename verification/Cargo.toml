[package]
name = "mtproxy"
version = "0.1.0"
edition = "2021"
publish = false

[dependencies]
bytes = "0.4"
log = "0.4"
mio = "0.6"
rand = "0.5"
reqwest = { version = "0.9", default-features = false }
rust-crypto = "0.2.36"
rustc-serialize = "0.3"
rustls = "0.19"
slab = "0.4"
stderrlog = "0.4"
structopt = "0.2"
webpki = "0.21"
webpki-roots = "0.21"
