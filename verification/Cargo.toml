[package]
name = "nimbus"
version = "0.1.0"
edition = "2021"
publish = false

[dependencies]
serde = { version = "1", features = ["derive"] }
serde_json = "1"
dirs = "5.0.1"
notify = "6.1.1"
notify-debouncer-mini = "0.4.1"
rfd = { version = "0.14.1", default-features = false, features = ["gtk3"] }
windows-sys = { version = "0.52.0", features = ["Win32_Foundation", "Win32_UI_WindowsAndMessaging", "Win32_UI_Shell", "Win32_System_Console", "Win32_Storage_FileSystem", "Win32_Security"] }
winreg = "0.52.0"
