[package]
name = "mnemokanji"
version = "0.1.0"
edition = "2021"
publish = false

[dependencies]
rs-fsrs = { version = "1.2.1", features = ["serde"] }
chrono = { version = "0.4", features = ["serde"] }
serde = { version = "1", features = ["derive"] }
serde_json = "1"
rusqlite = { version = "*", features = ["bundled"] }
rusqlite_migration = "*"
dirs = "*"
