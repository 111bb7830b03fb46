[package]
name = "pixel_agents_tui"
version = "0.1.0"
edition = "2021"
publish = false

[dependencies]
anyhow = "1"
bytes = "1"
crossterm = "0.28"
directories = "5"
futures-util = "0.3"
image = { version = "0.25", default-features = false, features = ["png"] }
rand = { version = "0.8", features = ["small_rng"] }
ratatui = "0.29"
serde = { version = "1", features = ["derive"] }
serde_json = "1"
tattoy-wezterm-term = "=0.1.0-fork.5"
tokio = { version = "1", features = ["full"] }
toml = "0.8"
vte = "0.15"
