[package]
name = "gddumper"
version = "0.1.0"
edition = "2021"
publish = false

[dependencies]
anyhow = "1"
clap = { version = "4", features = ["derive"] }
iced-x86 = "1.21"
memchr = "2"
msvc-demangler = "0.11"
serde_json = "1"
ureq = "3"
