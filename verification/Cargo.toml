[package]
name = "mcu_debug_helper"
version = "0.1.0"
edition = "2021"
publish = false

[dependencies]
anyhow = "1"
capstone = "*"
clap = { version = "4", features = ["derive"] }
cpp_demangle = "0.5"
dunce = "1"
gimli = "*"
memmap2 = "*"
object = "*"
regex = "1"
rustc-demangle = "0.1"
serde = { version = "1", features = ["derive"] }
serde_json = "1"
ts-rs = "*"
urlencoding = "2"
