[package]
name = "markdown-remarkable"
version = "0.1.0"
edition = "2021"
publish = false

[dependencies]
anyhow = "1"
clap = { version = "4", features = ["derive"] }
muda = "*"
notify = "*"
open = "5"
percent-encoding = "2"
pulldown-cmark = "0.13"
rfd = "*"
serde = { version = "1", features = ["derive"] }
serde_json = "1"
sha2 = "0.10"
tao = "*"
time = { version = "0.3", features = ["formatting"] }
tiny_http = "0.12"
wry = "*"

[dev-dependencies]
