[package]
name = "chd"
version = "0.3.0"
edition = "2021"
publish = false

[dependencies]
anyhow = "=1.0.104"
bitreader = "=0.3.11"
byteorder = "=1.5.0"
clap = { version = "=3.2.25", features = ["derive"] }
claxon = "=0.4.3"
crc = "=3.4.0"
flate2 = "=1.1.10"
hex = "=0.4.3"
libflac-rs = "=0.143.1"
libzstd-bitexact-rs = "=0.155.1"
lzma-rs = { version = "=0.3.0", features = ["raw_decoder"] }
lzma-sdk-rs = "=0.2301.1"
ruzstd = "=0.9.1"
sha1 = "=0.10.7"
thousands = "=0.2.0"
zlib-bitexact-rs = "=0.131.1"
