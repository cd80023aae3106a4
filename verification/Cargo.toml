[package]
name = "project_manager"
version = "1.0.0"
edition = "2021"
publish = false

[dependencies]
quick-xml = "0.22"
clap = "2"
getch = "*"
serde = { version = "1", features = ["derive"] }
serde_derive = "1"
serde_json = "1"
