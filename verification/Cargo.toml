[package]
name = "r-heatmap"
version = "0.1.0"
edition = "2021"
publish = false

[dependencies]
clap = { version = "4", features = ["derive"] }
serde = { version = "1", features = ["derive"] }
toml = "0.8"
log = "0.4"
fern = { version = "0.7", features = ["colored"] }
chrono = "0.4"
color-eyre = "0.6"
crossterm = "0.28"
ratatui = "0.29"
sysinfo = "0.33"
windows-sys = { version = "0.59", features = ["Win32_Foundation", "Win32_System_Registry", "Win32_System_Performance", "Win32_Storage_FileSystem", "Win32_System_IO", "Win32_System_Ioctl", "Win32_System_Console"] }
