[package]
name = "aur_check_rebuild"
version = "0.1.0"
edition = "2021"
publish = false

[dependencies]
cached = "*"
glob = "*"
goblin = "*"
libc = "*"
once_cell = "*"
rayon = "*"
regex = "*"
serde = { version = "1", features = ["derive"] }
serde_json = "1"
sysinfo = "*"
toml = "*"
