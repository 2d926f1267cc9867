[package]
name = "accountsdb_dictionary"
version = "0.1.0"
edition = "2021"
publish = false

[dependencies]
lz4_flex = "*"
lz4 = "*"
zstd = "*"
clap = { version = "*", features = ["derive"] }
