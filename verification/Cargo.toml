[package]
name = "jj-sync-prs"
version = "0.1.0"
edition = "2021"
publish = false

[dependencies]
async-trait = "0.1"
clap = { version = "4", features = ["derive", "env"] }
color-eyre = "0.6"
dialoguer = "0.12"
futures = "0.3"
octocrab = { version = "=0.40.0", features = ["stream"] }
serde = { version = "1", features = ["derive"] }
serde_json = "1"
tokio = { version = "1", features = ["macros", "rt-multi-thread", "sync"] }
