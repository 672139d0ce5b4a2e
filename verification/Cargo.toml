[package]
name = "abl_exorcist"
version = "0.1.0"
edition = "2021"
publish = false

[dependencies]
abootimg-oxide = { version = "=0.5.2", features = ["hash"] }
sha1 = "0.11"
flate2 = "=1.1.10"
zstd = "=0.14.3"
lzzzz = "=2.0.0"
clap = { version = "=4.6.7", features = ["derive"] }
