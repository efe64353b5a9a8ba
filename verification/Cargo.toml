[package]
name = "boundrs"
version = "0.1.0"
edition = "2021"
publish = false

[dependencies]
alphanumeric-sort = "1"
anyhow = "1"
clap = { version = "4", features = ["derive"] }
csv = "1"
egui = "0.27"
egui_extras = { version = "0.27", features = ["image"] }
env_logger = "0.11"
glob = "0.3"
image = { version = "0.24", default-features = false, features = ["jpeg", "png"] }
itertools = "0.12"
log = "0.4"
serde = { version = "1", features = ["derive"] }
toml = "0.8"
