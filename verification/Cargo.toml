[package]
name = "tasker"
version = "0.1.0"
edition = "2021"
publish = false

[dependencies]
anyhow = "*"
camino = "*"
clap = { version = "*", features = ["derive"] }
color-eyre = "*"
deunicode = "*"
directories = "*"
itertools = "*"
owo-colors = "*"
ron = "*"
serde = { version = "*", features = ["derive"] }
str_slug = "*"
thiserror = "*"
toml = "*"
