[package]
name = "elm_vendor"
version = "0.1.0"
edition = "2021"
publish = false

[dependencies]
serde = { version = "*", features = ["derive"] }
serde_json = "*"
anyhow = "*"
git2 = { version = "*", default-features = false }
dialoguer = "*"
structopt = "*"
