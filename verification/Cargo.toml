[package]
name = "visual_git"
version = "0.1.0"
edition = "2021"
publish = false

[dependencies]
nanoserde = "*"
notify = "*"
