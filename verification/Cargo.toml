[package]
name = "op_sys"
version = "0.1.0"
edition = "2021"
publish = false

[dependencies]
uefi = "0.27"
x86_64 = { version = "0.15", default-features = false, features = ["instructions"] }
ansi-parser = "0.9"
ab_glyph = "0.2"
pic8259 = "0.11"
spin = "0.9"
lazy_static = { version = "1.4", features = ["spin_no_std"] }
log = "0.4"
