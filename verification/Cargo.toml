[package]
name = "versearch"
version = "0.1.0"
edition = "2021"
publish = false

[dependencies]
anyhow = "1"
envy = "0.4"
fst = "0.4"
log = "0.4"
prost = "*"
serde = { version = "1", features = ["derive"] }
