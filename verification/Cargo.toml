[package]
name = "ost_mcp"
version = "0.1.0"
edition = "2021"
publish = false

[dependencies]
base64 = "0.22"
compressed-rtf = "*"
duckdb = { version = "1", default-features = false, features = ["vtab"] }
flate2 = "1"
memmap2 = "0.9"
rmcp = { version = "*", features = ["server", "macros", "transport-io"] }
rusqlite = { version = "*", features = ["bundled"] }
schemars = "1"
serde = { version = "1", features = ["derive"] }
serde_json = "1"
tokio = { version = "1", features = ["rt-multi-thread", "io-std", "macros"] }
windows-registry = "*"
