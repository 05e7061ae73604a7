[package]
name = "flint_init"
version = "0.5.0"
edition = "2021"
publish = false

[dependencies]
anyhow = "1"
bincode = "1"
inotify = "0.11"
libc = "0.2"
nix = { version = "0.29", features = ["process", "signal", "mount", "reboot", "fs"] }
serde = { version = "1", features = ["derive"] }
serde_json = "1"
thiserror = "1"
toml = "0.8"
