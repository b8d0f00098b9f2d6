[package]
name = "typepaste"
version = "0.1.0"
edition = "2021"
publish = false

[dependencies]
base64 = "=0.22.1"
chrono = "=0.4.45"
clap = { version = "=4.6.7", features = ["derive"] }
ctrlc = "=3.5.2"
data-encoding = "=2.11.1"
enigo = "=0.3.0"
flate2 = "=1.1.10"
glob = "=0.3.4"
hex = "=0.4.3"
image = { version = "=0.25.10", default-features = false, features = ["png"] }
indicatif = "=0.17.11"
leptess = "=0.14.0"
md-5 = "=0.10.6"
ocrs = "=0.13.1"
rqrr = "=0.11.0"
rten = "=0.26.0"
walkdir = "=2.5.0"
zip = { version = "=2.6.1", default-features = false, features = ["deflate"] }
zstd = "=0.13.4"
