[package]
name = "mcrs"
version = "0.1.0"
edition = "2021"
publish = false

[dependencies]
miniz_oxide = "0.8"
rand = "0.8"
rand_chacha = "0.3"
redb = "2"
bincode = "1"
serde = { version = "1", features = ["derive"] }
dot_vox = "5"
noise = "0.9"
clap = { version = "4", features = ["derive"] }
dirs = "5"
image = { version = "0.25", default-features = false, features = ["png"] }
