[package]
name = "trails"
version = "0.1.0"
edition = "2021"
publish = false

[dependencies]
rand = "=0.9.5"
rand_seeder = "=0.4.0"
clap = { version = "=4.6.7", features = ["derive"] }
