[package]
name = "diffnote"
version = "0.1.0"
edition = "2021"
publish = false

[dependencies]
anyhow = "1"
base64 = "0.22"
clap = { version = "4", features = ["derive"] }
ignore = "0.4"
pulldown-cmark = { version = "*", default-features = false }
serde = { version = "1", features = ["derive"] }
serde_json = "1"
serde_yaml = "0.9"
sha2 = "0.10"
similar = "2"
syntect = { version = "5", default-features = false, features = ["default-fancy"] }
tempfile = "3"
thiserror = "2"
time = { version = "0.3", features = ["formatting", "parsing", "serde"] }
two-face = { version = "*", default-features = false, features = ["syntect-fancy"] }
ulid = "1"
zip = { version = "2", default-features = false, features = ["deflate"] }
