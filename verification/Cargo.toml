[package]
name = "spacehub"
version = "0.1.0"
edition = "2021"
publish = false

[dependencies]
async-recursion = "=1.2.0"
clap = { version = "=4.6.7", features = ["derive"] }
color-eyre = "=0.6.5"
git2 = "=0.21.0"
ldap3 = "=0.12.1"
minijinja = "=2.24.0"
ruma = "=0.17.0"
ruma-client = { version = "=0.20.0", features = ["client-api", "hyper"] }
serde = { version = "=1.0.229", features = ["derive"] }
serde_yaml = "=0.9.34"
tempdir = "=0.3.7"
tokio = { version = "=1.53.2", features = ["macros", "rt-multi-thread"] }
tracing = "=0.1.44"
tracing-subscriber = "=0.3.23"
url = "=2.5.8"
