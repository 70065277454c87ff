[package]
name = "supermd"
version = "0.1.0"
edition = "2021"
publish = false

[dependencies]
sha2 = "=0.10.9"
similar = "=2.7.0"
unicode-segmentation = "=1.13.3"
ropey = "=1.6.1"
serde = { version = "=1.0.229", features = ["derive"] }
serde_json = "=1.0.154"
zip = "=9.2.2"
pulldown-cmark = "=0.13.6"
ureq = "=3.5.1"
merman = { version = "=0.7.0", features = ["render"] }
resvg = "=0.49.0"

[dev-dependencies]
tempfile = "=3.27.0"
