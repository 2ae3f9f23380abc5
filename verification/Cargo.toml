[package]
name = "refrences_lsp"
version = "0.1.0"
edition = "2021"
publish = false

[dependencies]
etcetera = "*"
gouqi = "*"
log = "*"
lsp-server = "*"
lsp-types = "*"
serde = { version = "*", features = ["derive"] }
serde_json = "*"
stderrlog = "*"
thiserror = "*"
toml = "*"
