[package]
name = "libtau"
version = "0.1.0"
edition = "2021"
publish = false

[dependencies]
aes-gcm = "0.10"
crc32fast = "1"
hex = "0.4"
mlua = { version = "0.10", features = ["lua54", "vendored"] }
prometheus-client = "0.23"
rand = "0.8"
sysinfo = "0.33"
tokio = { version = "1", features = ["rt", "rt-multi-thread", "sync", "macros"] }
tracing = "0.1"
zstd = "0.13"

[dev-dependencies]
tempfile = "3"
