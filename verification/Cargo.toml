[package]
name = "ffs"
version = "0.1.0"
edition = "2021"
publish = false

[dependencies]
anyhow = "1"
async-trait = "0.1"
bitflags = "2"
bs58 = "0.5"
bytemuck = { version = "1", features = ["derive"] }
clap = { version = "4", features = ["derive", "env"] }
compactly = "*"
derive_more = { version = "2", features = ["full"] }
indoc = "2"
inquire = "*"
redb = "3"
rkyv = "0.8"
tempfile = "3"
tokio = { version = "1", features = ["full"] }
uuid = { version = "1", features = ["v4"] }
weighted-rs = "*"
