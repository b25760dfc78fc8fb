[package]
name = "quickfind"
version = "1.5.1"
edition = "2021"
publish = false

[dependencies]
clap = { version = "4", features = ["derive"] }
crossterm = "0.25"
eyre = "0.6"
glob = "0.3"
home = "0.5"
notify = "6"
opener = "0.7"
rusqlite = { version = "0.31", features = ["bundled"] }
serde = { version = "1", features = ["derive"] }
toml = "0.8"
tui = "0.19"
