[package]
name = "fishsticks"
version = "0.1.0"
edition = "2021"
publish = false

[dependencies]
strsim = "*"
rand = "*"
getopts = "*"
serde = { version = "*", features = ["derive"] }
serde_json = "*"
uuid = { version = "*", features = ["v4"] }
time = { version = "*", features = ["formatting"] }
