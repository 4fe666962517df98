[package]
name = "dupe_finder"
version = "0.1.0"
edition = "2021"
publish = false

[dependencies]
glob = "0.3"
md5 = "0.7"
sha2 = "0.10"
xxhash-rust = { version = "0.8", features = ["xxh64"] }
dirs = "5"
chrono = { version = "0.4", default-features = false, features = ["std", "now", "serde"] }
clap = { version = "4", features = ["derive"] }
serde = { version = "1", features = ["derive"] }
serde_json = "1"
walkdir = "2"
axum = "0.7"
tokio = { version = "1", features = ["rt-multi-thread", "macros", "net"] }
tower-http = { version = "0.5", features = ["cors"] }
dotenvy = "0.15"
webbrowser = "1"
rust-embed = "8"
mime_guess = "2"

[dev-dependencies]
tempfile = "3"
