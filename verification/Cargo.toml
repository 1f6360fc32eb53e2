[package]
name = "diskbytes"
version = "0.1.0"
edition = "2021"
publish = false

[dependencies]
objc2 = "=0.6.5"
parking_lot = "=0.12.5"
png = "=0.18.1"
rayon = "=1.12.0"
serde = { version = "=1.0.229", features = ["derive"] }
serde_json = "=1.0.154"
sha2 = "=0.10.9"
tauri = { version = "=2.12.5", default-features = false }
windows = { version = "=0.62.2", features = [
    "ApplicationModel",
    "Foundation",
    "Foundation_Collections",
    "Management_Deployment",
    "Storage",
    "Wdk_Storage_FileSystem",
    "Wdk_System_SystemInformation",
    "Win32_Foundation",
    "Win32_Graphics_Gdi",
    "Win32_NetworkManagement_IpHelper",
    "Win32_NetworkManagement_Ndis",
    "Win32_Networking_WinSock",
    "Win32_Security",
    "Win32_Storage_FileSystem",
    "Win32_System_Com",
    "Win32_System_DataExchange",
    "Win32_System_IO",
    "Win32_System_Memory",
    "Win32_System_Ole",
    "Win32_System_ProcessStatus",
    "Win32_System_Registry",
    "Win32_System_SystemInformation",
    "Win32_System_Threading",
    "Win32_System_WindowsProgramming",
    "Win32_UI_Shell",
    "Win32_UI_Shell_Common",
    "Win32_UI_WindowsAndMessaging",
] }
windows-future = "=0.3.2"
