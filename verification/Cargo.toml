[package]
name = "tokie"
version = "0.1.0"
edition = "2021"
publish = false

[dependencies]
base64 = "=0.23.1"
chunk = "=0.10.2"
clap = { version = "=4.6.7", features = ["derive"] }
crc32fast = "=1.5.4"
daggrs = "=0.1.1"
foldhash = "=0.2.0"
hf-hub = { version = "0.4.3", default-features = false, features = ["ureq", "rustls-tls"] }
icu_normalizer = "=2.4.0"
memchr = "=2.8.3"
serde_json = "=1.0.154"
smallvec = "=1.16.4"
unicode-general-category = "=1.1.0"
unicode-segmentation = "=1.13.3"
