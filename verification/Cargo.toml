[package]
name = "shakespeare_gen"
version = "0.1.0"
edition = "2021"
publish = false

[dependencies]
clap = "3"
csv = "1"
scratch_genetic = "*"
serde = { version = "1", features = ["derive"] }
tokio = { version = "1", features = ["macros", "rt-multi-thread"] }
