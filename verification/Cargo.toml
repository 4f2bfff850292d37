[package]
name = "page_table_multiarch"
version = "0.5.0"
edition = "2021"
publish = false

[dependencies]
arrayvec = { version = "0.7", default-features = false }
axerrno = "*"
bitmaps = { version = "3", default-features = false }
crate_interface = "*"
log = "0.4"
memory_addr = "*"
x86 = "0.52"

[dev-dependencies]
rand = { version = "0.9", default-features = false, features = ["small_rng"] }
