[package]
name = "rizz"
version = "0.7.0"
edition = "2021"
publish = false

[dependencies]
im = "15"
ordered-float = "4"
thiserror = "2"
anyhow = "1"
clap = { version = "4", features = ["derive"] }
rustyline = { version = "14", features = ["derive"] }
bon = "3"
