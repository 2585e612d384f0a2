[package]
name = "rapid_rust_replay"
version = "0.1.0"
edition = "2021"
publish = false

[dependencies]
anyhow = "1"
clap = { version = "4", features = ["derive"] }
libc = "0.2"
lz4_flex = "0.11"
mcap = "0.12"
memmap2 = "0.9"
rusqlite = { version = "0.37", features = ["bundled"] }
serde_json = "1"
tokio = { version = "1", features = ["full"] }
zenoh = { version = "1", default-features = false, features = ["transport_tcp", "transport_udp"] }
