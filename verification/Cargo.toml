[package]
name = "painter"
version = "0.1.0"
edition = "2021"
publish = false

[dependencies]
petgraph = "=0.8.3"
rustc-demangle = "=0.1.28"
lenient_semver = "=0.4.2"
semver = "=1.0.28"
llvm-ir = { version = "=0.11.3", features = ["llvm-17"] }
clap = { version = "=4.6.7", features = ["derive"] }
crates-index = { version = "=0.19.13", features = ["parallel"] }
neo4rs = "=0.6.2"
tokio = { version = "=1.54.1", features = ["full"] }
futures = "=0.3.34"
rayon = "=1.12.0"
walkdir = "=2.5.0"
flate2 = "=1.1.10"
tar = "=0.4.46"
circular-buffer = "=2.0.1"
serde = { version = "=1.0.229", features = ["derive"] }
serde_json = "=1.0.154"
thiserror = "=1.0.69"
log = "=0.4.34"
env_logger = "=0.11.11"
graphviz-rust = "*"
dot-structures = "*"
