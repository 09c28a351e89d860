[package]
name = "delink"
version = "0.1.0"
edition = "2021"
publish = false

[dependencies]
anyhow = "1"
capstone = "*"
clap = { version = "4", features = ["derive"] }
gimli = "*"
iced-x86 = "1.21"
memmap2 = "0.9"
object = { version = "0.37", features = ["write"] }
rayon = "1"
serde = { version = "1", features = ["derive"] }
serde_json = "1"
tracing = "0.1"
tracing-subscriber = { version = "0.3", features = ["env-filter"] }
