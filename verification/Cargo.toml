[package]
name = "plugin_manager_lib"
version = "0.1.0"
edition = "2021"
publish = false

[dependencies]
libloader = "*"
serde = { version = "*", features = ["derive"] }
