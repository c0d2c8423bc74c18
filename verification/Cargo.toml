[package]
name = "pyfixy_lsp"
version = "0.1.0"
edition = "2021"
publish = false

[dependencies]
anyhow = "=1.0.104"
lsp-types = "=0.95.1"
ruff_python_ast = "<=0.0.8"
ruff_python_parser = "<=0.0.8"
ruff_text_size = "<=0.0.8"
serde_json = "=1.0.154"
url = "=2.5.8"

[dev-dependencies]
tempfile = "=3.27.0"
