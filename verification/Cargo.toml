[package]
name = "git_dag_analyzer"
version = "0.1.0"
edition = "2021"
publish = false

[dependencies]
anyhow = "1"
clap = { version = "4", features = ["derive"] }
num_cpus = "1"
rayon = "1"
tokio = { version = "1", features = ["macros", "rt-multi-thread", "sync"] }
