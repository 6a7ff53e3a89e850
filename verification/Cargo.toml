[package]
name = "dwarf_reader"
version = "0.1.0"
edition = "2021"
publish = false

[dev-dependencies]
leb128 = "0.2"
