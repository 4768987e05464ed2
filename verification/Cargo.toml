[package]
name = "sanguine"
version = "0.3.1"
edition = "2021"
publish = false

[dependencies]
termwiz = "*"
thiserror = "1"
itertools = "*"
ratatui = "*"
ansi-to-tui = "*"
taffy = "0.3"
dashmap = "5"
tokio = { version = "1", features = ["time", "rt", "macros"] }
async-trait = "0.1"
lazy_static = "1"
anyhow = "1"
