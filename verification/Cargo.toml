[package]
name = "zed-gherkin"
version = "0.1.0"
edition = "2021"
publish = false

[dependencies]
regex = "=1.13.1"
regex-syntax = "=0.8.11"
ignore = "=0.4.34"
lsp-server = "=0.7.9"
lsp-types = "=0.95.1"
serde_json = "=1.0.154"
zed_extension_api = "=0.7.0"
