[package]
name = "neoq"
version = "0.1.0"
edition = "2021"
publish = false

[dependencies]
neo4rs = { version = "0.9.0-rc.1", features = ["json"] }
sha2 = "=0.11.1"
serde = { version = "=1.0.229", features = ["derive"] }
serde_json = "=1.0.154"
syn = { version = "=2.0.119", features = ["full"] }
quote = "=1.0.47"
proc-macro2 = { version = "=1.0.107", features = ["span-locations"] }
async-trait = "=0.1.92"
thiserror = "=2.0.21"
tracing = "=0.1.44"
