[package]
name = "beat_pipeline"
version = "0.1.0"
edition = "2021"
publish = false

[dependencies]
anyhow = "*"
cpal = "*"
crossterm = "*"
ratatui = "*"
rand = "*"
spectrum-analyzer = "*"
