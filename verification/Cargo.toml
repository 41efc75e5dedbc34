[package]
name = "based_num"
version = "0.1.0"
edition = "2021"
publish = false

[dependencies]
tinyvec = { version = "1", features = ["alloc", "rustc_1_55"] }
clap = { version = "4", features = ["derive"] }
csv = "1"
indicatif = "0.17"
serde = { version = "1", features = ["derive"] }
