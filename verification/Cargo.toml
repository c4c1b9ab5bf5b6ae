[package]
name = "pachinko"
version = "0.1.0"
edition = "2021"
publish = false

[dependencies]
fuzzy-matcher = "*"
unicode-segmentation = "*"
qualia = "*"
tui = "0.19"
crossterm = "0.25"
clap = { version = "*", features = ["derive", "env"] }
anyhow = "*"
dirs = "*"
ctrlc = "*"
rustyline = "*"
shell-words = "*"
regex = "*"
serde = "*"
serde_json = "*"
unicode-width = "*"
