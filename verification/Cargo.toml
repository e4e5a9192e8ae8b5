[package]
name = "rallocator"
version = "0.1.0"
edition = "2021"
publish = false

[dependencies]
backtrace = "0.3"
libc = "0.2"
proc-macro2 = "1"
quote = "1"
syn = { version = "2", features = ["full", "extra-traits"] }
windows-sys = { version = "*", features = ["Win32_Foundation", "Win32_System_Memory", "Win32_System_SystemInformation", "Win32_System_Performance", "Win32_System_Threading"] }
