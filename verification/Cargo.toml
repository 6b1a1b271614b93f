[package]
name = "rustgit"
version = "0.1.0"
edition = "2021"
publish = false

[dependencies]
anyhow = "1"
atty = "0.2"
chrono = "0.4"
clap = "3"
dirs = "*"
git2 = { version = "*", default-features = false }
glob = "0.3"
shellexpand = "*"

[dev-dependencies]
regex = "1"
