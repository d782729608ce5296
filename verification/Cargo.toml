[package]
name = "version_history_inference"
version = "0.1.0"
edition = "2021"
publish = false

[dependencies]
similar = "=2.7.0"
chu-liu-edmonds = "=0.1.0"
ndarray = "=0.15.6"
clap = { version = "=4.6.7", features = ["cargo"] }
indicatif = "=0.18.6"
rayon = "=1.12.0"
render_as_tree = "=0.2.1"
serde = { version = "=1.0.229", features = ["derive"] }
serde_json = "=1.0.154"
git2 = { version = "=0.21.0", features = ["https"] }
dircpy = "=0.3.21"
tempdir = "=0.3.7"
octocrab = "=0.47.1"
tokio = { version = "=1.54.1", features = ["full"] }
futures = "=0.3.34"
disjoint = "=0.8.0"
