[package]
name = "marina"
version = "0.1.0"
edition = "2021"
publish = false

[dependencies]
libc = "0.2"
libproc = "0.14"
netstat2 = "0.11"
ratatui = "0.29"
regex = "1"
serde = { version = "1", features = ["derive"] }
serde_json = "1"
sysinfo = "0.33"
toml = "0.8"
