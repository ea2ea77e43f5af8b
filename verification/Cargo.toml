[package]
name = "rss"
version = "0.1.0"
edition = "2021"
publish = false

[dependencies]
anyhow = "=1.0.104"
clap = { version = "=4.6.7", features = ["derive"] }
crc32fast = "=1.5.4"
crc64fast = "=1.1.0"
crossbeam-channel = "=0.5.17"
csv = "=1.4.0"
dua-core = "=6.0.0"
eframe = { version = "*", default-features = false, features = ["glow", "x11", "default_fonts"] }
egui = "*"
fs2 = "=0.4.3"
open = "=5.4.5"
rfd = { version = "*", default-features = false, features = ["xdg-portal"] }
rustc-hash = "=2.1.3"
serde = { version = "=1.0.229", features = ["derive"] }
serde_json = "=1.0.154"
thiserror = "=2.0.21"
toml = "=0.9.12"

[dev-dependencies]
tempfile = "=3.27.0"
