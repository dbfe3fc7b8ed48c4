[package]
name = "audioserve"
version = "0.1.0"
edition = "2021"
publish = false

[dependencies]
bytes = "=1.12.1"
byteorder = "=1.5.0"
mime_guess = "=2.0.5"
regex = "=1.13.1"
flate2 = "=1.1.10"
data-encoding = "=2.11.1"
linked-hash-map = "=0.5.6"
unicase = "=2.10.0"
chrono = "=0.4.45"
headers = "=0.4.2"
http = "=1.5.0"
nom = "=8.0.0"
indexmap = "=2.14.2"
bit-vec = "=0.8.0"
percent-encoding = "=2.3.2"
url = "=2.5.8"
tar = "0.4"
csv = "1"
serde = { version = "1", features = ["derive"] }
serde_json = "1"
