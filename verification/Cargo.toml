[package]
name = "rusty-torrents"
version = "0.1.0"
edition = "2021"
publish = false

[dependencies]
async-trait = "=0.1.92"
bytes = "=1.12.1"
bytesize = "=1.3.3"
clap = { version = "=4.6.7", features = ["derive"] }
crossterm = "=0.25.0"
dirs = "=4.0.0"
rand = "=0.8.8"
reqwest = { version = "=0.11.27", default-features = false }
sha1 = "=0.6.1"
sha1_smol = { version = "=1.0.1", features = ["std"] }
tokio = { version = "=1.54.1", features = ["full"] }
tracing = "=0.1.44"
tracing-subscriber = "=0.3.23"
tui = "=0.19.0"
urlencoding = "=2.1.3"
