[package]
name = "ms_toolkit"
version = "0.1.0"
edition = "2021"
publish = false

[dependencies]
regex = "1"
rayon = "1"
anyhow = "1"
async-trait = "0.1"
tokio = { version = "1", features = ["rt-multi-thread", "io-util", "sync"] }
russh = { version = "0.44", default-features = false }
russh-keys = "0.44"
russh-sftp = "2"
egui = { version = "0.29", default-features = false, features = ["default_fonts"] }
egui_extras = { version = "0.29", default-features = false }
printpdf = { version = "0.7", default-features = false }
