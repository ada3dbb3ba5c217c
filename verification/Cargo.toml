[package]
name = "partitions"
version = "0.1.0"
edition = "2021"
publish = false

[dependencies]
crc32fast = "1"
am-fs-core = "*"

[dev-dependencies]
saphyr = "*"
