[package]
name = "seph"
version = "0.1.0"
edition = "2021"
publish = false

[dependencies]
uuid = { version = "1", features = ["v4"] }
nix = { version = "0.29", features = ["user"] }
directories = "5"
notify = "6"
clap = { version = "4", features = ["derive"] }
