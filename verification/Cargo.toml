[package]
name = "mcap2vid"
version = "0.1.0"
edition = "2021"
publish = false

[dependencies]
anyhow = "1"
byteorder = "1.5"
clap = { version = "4", features = ["derive"] }
hex = "0.4"
hmac = "0.12"
image = { version = "0.25", default-features = false, features = ["jpeg", "png"] }
indicatif = "0.17"
lz4_flex = "0.11"
mcap = "*"
memmap2 = "0.9"
rayon = "1"
serde = { version = "1", features = ["derive"] }
serde_json = "1"
sha2 = "0.10"
ureq = "2"
zstd = "0.13"
