[package]
name = "docsync"
version = "0.1.0"
edition = "2021"
publish = false

[dependencies]
clang = { version = "*", features = ["runtime"] }
clap = { version = "3", features = ["derive"] }
glob = "0.3"
markdown-gen = "*"
proc-macro2 = { version = "1", features = ["span-locations"] }
roxmltree = "*"
syn = { version = "1", features = ["full", "visit"] }
