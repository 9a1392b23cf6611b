[package]
name = "lune_modules"
version = "0.1.0"
edition = "2021"
publish = false

[dependencies]
regex = "1"
serde = { version = "1", features = ["derive"] }
serde_json = "1"
anyhow = "1"
clap = { version = "4", features = ["derive"] }
console = "*"
async-fs = "2"
async-channel = "2"
mlua = { version = "0.11", features = ["luau", "async"] }
mlua-luau-scheduler = "*"
lune-utils = "*"
