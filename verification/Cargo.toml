[package]
name = "basecode_lsp"
version = "0.1.0"
edition = "2021"
publish = false

[dependencies]
clap = { version = "*", features = ["derive"] }
glob = "*"
hashbrown = "*"
regex = "*"
simple-log = "*"
tokio = { version = "*", features = ["full"] }
tower-lsp = "*"
