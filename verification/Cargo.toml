[package]
name = "tablestg"
version = "0.1.0"
edition = "2021"
publish = false

[dependencies]
fxhash = "*"
serde = { version = "1", features = ["derive"] }
postcard = { version = "1", features = ["use-std"] }
page-store = "*"
atom-file = "*"
pstd = "*"
equivalent = "*"
