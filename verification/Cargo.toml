[package]
name = "logcrate"
version = "0.1.0"
edition = "2021"
publish = false

[dependencies]
anyhow = "1"
convert_case = "0.6"
encoding_rs = "0.8"
jieba-rs = "0.7"
notify = "6"
pinyin = "0.10"
rusqlite = { version = "0.31", features = ["bundled"] }
serde = { version = "1", features = ["derive"] }
serde_json = "1"
tantivy = "0.22"
tokio = { version = "1", features = ["sync", "rt", "macros"] }
trash = "5"
unrar_sys = "0.5"
widestring = "1"
windows-service = "0.7"
windows-sys = { version = "0.59", features = ["Win32_Foundation", "Win32_Security", "Win32_Security_Authorization", "Win32_Storage_FileSystem", "Win32_System_IO", "Win32_System_Ioctl", "Win32_System_Pipes", "Win32_System_Services"] }
zhconv = "0.3"
zip = { version = "2", default-features = false, features = ["deflate"] }
