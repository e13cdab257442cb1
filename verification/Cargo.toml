[package]
name = "pgp_graph"
version = "0.1.0"
edition = "2021"
publish = false

[dependencies]
anyhow = "*"
clap = { version = "*", features = ["derive"] }
clap_complete = "*"
clap_mangen = "*"
clap-verbosity-flag = "*"
clio = { version = "*", features = ["clap-parse"] }
env_logger = { version = "*", default-features = false }
futures = "*"
log = "*"
petgraph = "*"
sequoia-net = "*"
sequoia-openpgp = { version = "*", default-features = false, features = ["crypto-openssl"] }
sequoia-wot = { version = "*", default-features = false }
serde = "*"
serde_json = "*"
tokio = { version = "*", features = ["macros", "rt-multi-thread"] }
