[package]
name = "mdx_rs"
version = "0.1.0"
edition = "2021"
publish = false

[dependencies]
adler32 = "1"
encoding_rs = "0.8"
miniz_oxide = "0.8"
ripemd = "0.1"
serde = "1"
rusqlite = { version = "0.31", features = ["bundled"] }
tokio = { version = "1", features = ["full"] }
warp = "0.3"
