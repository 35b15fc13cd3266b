[package]
name = "flow"
version = "0.1.0"
edition = "2021"
publish = false

[dependencies]
arboard = { version = "3", default-features = false }
clap = { version = "4", features = ["derive"] }
crossterm = "0.28"
dialoguer = "0.11"
dirs = "5"
is-terminal = "0.4"
ratatui = "0.29"
serde = { version = "1", features = ["derive"] }
serde_json = "1"
skim = { version = "0.10", default-features = false }
uuid = { version = "1", features = ["v4"] }

[dev-dependencies]
regex = "1"
