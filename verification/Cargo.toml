[package]
name = "runtime"
version = "0.1.0"
edition = "2021"
publish = false

[dependencies]
ahash = "=0.8.12"
backtrace = "=0.3.77"
libffi = "=5.2.0"
napi = { version = "=2.16.17", features = ["napi8"] }
napi-derive = "=2.16.13"
oxc = { version = "=0.143.0", features = ["codegen", "semantic"] }
oxc_transformer_plugins = "=0.143.0"
serde_json = "=1.0.154"
smallvec = "=1.16.4"
url = "=2.5.8"
windows = { version = "=0.58.0", features = ["Win32_Foundation", "Win32_Networking_WinHttp", "Win32_System_Diagnostics_Debug", "Win32_System_Kernel", "Win32_System_LibraryLoader", "Win32_System_Threading", "Win32_System_WinRT", "Win32_System_WinRT_Composition", "Win32_UI_WindowsAndMessaging", "Win32_Graphics_Gdi", "UI_Composition", "UI_Composition_Desktop", "Win32_Security"] }
