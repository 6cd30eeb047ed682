[package]
name = "legend"
version = "0.1.0"
edition = "2021"
publish = false

[dependencies]
smol_str = "*"
logos = "*"
linkme = "*"
thiserror = "*"
serde_json = "*"
jni = "*"
im-rc = "*"
anyhow = "*"
clap = { version = "*", features = ["derive"] }
walkdir = "*"
pathdiff = "*"
