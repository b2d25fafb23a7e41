[package]
name = "random_picker"
version = "0.1.0"
edition = "2021"
publish = false

[dependencies]
anyhow = "*"
clap = { version = "*", features = ["derive"] }
clap_complete = "*"
config = "*"
directories = "*"
rand = "*"
serde = { version = "*", features = ["derive"] }
serde_yml = "*"
