[package]
name = "rikky_modoki"
version = "0.1.0"
edition = "2021"
publish = false

[dependencies]
encoding_rs = "=0.8.44"
xxhash-rust = { version = "=0.8.19", features = ["xxh3"] }
regex-automata = "=0.4.18"
aviutl2 = "=0.52.1"
anyhow = "=1.0.104"
tracing = "=0.1.44"
rustfft = "=6.4.1"
dirs = "=7.0.0"
native-dialog = "=0.9.7"
process_path = "=0.1.4"
lazy-regex = "=3.6.2"
windows = { version = "=0.62.2", features = ["Win32_Foundation", "Win32_Graphics_Gdi", "Win32_Graphics_GdiPlus", "Win32_System_LibraryLoader", "Win32_UI_Controls", "Win32_UI_HiDpi", "Win32_UI_Input_KeyboardAndMouse", "Win32_UI_WindowsAndMessaging"] }
