[package]
name = "agent_friction"
version = "0.1.0"
edition = "2021"
publish = false

[dependencies]
chrono = { version = "0.4", features = ["serde"] }
clap = { version = "4", features = ["derive"] }
comfy-table = "7"
interim = { version = "0.2", features = ["chrono_0_4"] }
regex = "1"
rusqlite = { version = "0.37", features = ["bundled", "chrono", "serde_json"] }
serde = { version = "1", features = ["derive"] }
serde_json = "1"
thiserror = "2"
xdg = "3"
anyhow = "1"
