[package]
name = "muxl"
version = "0.1.0"
edition = "2021"
publish = false

[dependencies]
blake3 = "=1.8.7"
c2pa = { version = "=0.78.8", default-features = false, features = ["rust_native_crypto"] }
clap = { version = "=4.6.7", features = ["derive"] }
const-oid = { version = "=0.9.6", features = ["db"] }
dasl = "=0.2.0"
der = { version = "=0.7.10", features = ["alloc", "oid", "std"] }
js-sys = "0.3"
k256 = { version = "=0.13.4", features = ["ecdsa", "pem", "pkcs8", "std"] }
mp4-atom = "=0.10.1"
serde = { version = "1", features = ["derive"] }
serde_bytes = "0.11"
serde_json = "=1.0.154"
sha1 = "=0.10.7"
sha2 = "=0.10.9"
spki = "=0.7.3"
tempfile = "3"
wasm-bindgen = "0.2"
x509-cert = "=0.2.5"
