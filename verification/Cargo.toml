[package]
name = "archi_view_importer"
version = "0.1.0"
edition = "2021"
publish = false

[dependencies]
clap = { version = "*", features = ["derive"] }
encoding_rs = "*"
uuid = { version = "*", features = ["v4"] }
xot = "*"
zip = "*"
