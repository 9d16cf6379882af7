[package]
name = "tacet"
version = "0.2.0"
edition = "2021"
publish = false

[dependencies]
anyhow = "1"
axum = "0.7"
bincode = "1.3"
clap = { version = "4", features = ["derive"] }
num-complex = "0.4"
rayon = "1"
rubato = "0.15"
rusqlite = { version = "0.31", features = ["bundled"] }
rustfft = "6"
serde = { version = "1", features = ["derive"] }
serde_json = "1"
shellexpand = "3"
symphonia = { version = "0.5", features = ["all"] }
tokio = { version = "1", features = ["rt-multi-thread", "macros", "net"] }
tower-http = { version = "0.5", features = ["trace"] }
tracing = "0.1"
tracing-subscriber = { version = "0.3", features = ["env-filter"] }
