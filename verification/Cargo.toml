[package]
name = "netconf_language_server"
version = "0.5.0"
edition = "2021"
publish = false

[dependencies]
tree-sitter = "*"
tree-sitter-xml = "*"
tree-sitter-json = "*"
regex = "1"
yrepo = "*"
ropey = "1"
serde = { version = "1", features = ["derive"] }
serde_json = "1"
tokio = { version = "1", features = ["io-std", "macros", "rt-multi-thread", "sync"] }
tower-lsp-server = "*"
moka = { version = "*", features = ["future"] }
mimalloc = "*"
