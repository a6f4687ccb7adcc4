[package]
name = "jj_core"
version = "0.1.0"
edition = "2021"
publish = false

[dependencies]
ansi-to-tui = "*"
async-trait = "*"
bstr = "1"
clap = { version = "4", features = ["derive"] }
crossterm = "*"
dunce = "1"
etcetera = "*"
futures = "0.3"
indexmap = "2"
itertools = "*"
nix = { version = "*", features = ["signal"] }
rand = "*"
rand_chacha = "*"
ratatui = "*"
rayon = "1"
regex = "1"
sapling-renderdag = "*"
serde = { version = "1", features = ["derive"] }
shlex = "1"
tempfile = "3"
tokio = { version = "1", features = ["io-util", "sync", "rt"] }
toml = "*"
toml_edit = "*"
tracing = "0.1"
watchman_client = "*"
whoami = "*"
