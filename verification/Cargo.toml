[package]
name = "wakala"
version = "0.1.0"
edition = "2021"
publish = false

[dependencies]
kotva-core = "=0.2.0"
kotva-mail = { version = "=0.2.0", features = ["net"] }
ed25519-dalek = "=2.2.0"
sha2 = "=0.10.9"
getrandom = "=0.2.17"
idna = "=1.1.0"
rustls = { version = "=0.23.46", default-features = false, features = ["ring", "std", "tls12"] }
rustls-pemfile = "=2.2.0"
webpki-roots = "=1.0.10"
libc = "=0.2.191"
