[package]
name = "stack_deploy"
version = "0.1.0"
edition = "2021"
publish = false

[dependencies]
anyhow = "=1.0.104"
clap = { version = "=4.6.7", features = ["derive"] }
env_logger = "=0.11.11"
filenamegen = "=0.2.8"
gethostname = "=1.1.0"
keepass = "=0.7.33"
log = "=0.4.34"
rpassword = "=7.5.4"
serde = { version = "=1.0.229", features = ["derive"] }
toml = "=1.1.8"

[dev-dependencies]
petgraph = "=0.8.3"
