[package]
name = "nix-compute"
version = "0.1.0"
edition = "2021"
publish = false

[dependencies]
anyhow = "1"
base64 = "0.22"
clap = { version = "4", features = ["derive"] }
ed25519-dalek = { version = "2", features = ["rand_core"] }
flate2 = "1"
fs2 = "0.4"
hex = "0.4"
libc = "0.2"
nix-bindings-expr = "*"
nix-bindings-fetchers = "*"
nix-bindings-flake = "*"
nix-bindings-store = "*"
nix-bindings-util = "*"
rand_core = { version = "0.6", features = ["getrandom"] }
rusqlite = "0.32"
semver = "1"
serde = { version = "1", features = ["derive"] }
serde_json = "1"
sha2 = "0.10"
signal-hook = "0.3"
tar = "0.4"
tempfile = "3"
ureq = "2"
uuid = { version = "1", features = ["v4"] }
