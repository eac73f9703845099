[package]
name = "monitor"
version = "0.1.0"
edition = "2021"
publish = false

[dependencies]
bitcode = "0.6"
blake3 = { version = "1", features = ["pure"] }
regex-automata = "0.4"
serde = { version = "1", features = ["derive"] }
serde_json = "1"
clap = { version = "4", features = ["derive"] }
atty = "0.2"
nix = { version = "*", features = ["signal"] }
