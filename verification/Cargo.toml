[package]
name = "lane"
version = "0.1.0"
edition = "2021"
publish = false

[dependencies]
axum = "=0.8.9"
clap = { version = "=4.6.7", features = ["derive"] }
notify = "=8.2.1"
rusqlite = { version = "=0.41.1", features = ["bundled"] }
serde = { version = "=1.0.229", features = ["derive"] }
serde_json = "=1.0.154"
sha2 = "=0.10.9"
similar = "=3.1.2"
thiserror = "=2.0.21"
tokio = { version = "=1.54.1", features = ["macros", "net", "rt-multi-thread"] }
windows = { version = "=0.62.2", features = ["Win32_Foundation"] }
windows-sys = { version = "=0.61.2", features = ["Win32_Foundation", "Win32_System_Threading"] }
winfsp = "*"
winfsp-sys = "*"
winfsp_wrs = "*"
