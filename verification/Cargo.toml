[package]
name = "gitreg"
version = "0.1.0"
edition = "2021"
publish = false

[dependencies]
chrono = "0.4"
clap = { version = "4", features = ["derive"] }
dirs = "5"
dunce = "1"
flate2 = "1"
rusqlite = { version = "0.32", features = ["bundled"] }
serde = { version = "1", features = ["derive"] }
serde_json = "1"
sha2 = "0.10"
tabled = "0.16"
tar = "0.4"
thiserror = "1"
ureq = "2"
zip = { version = "2", default-features = false, features = ["deflate"] }
