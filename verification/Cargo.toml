[package]
name = "peach_profiler"
version = "0.1.0"
edition = "2021"
publish = false

[dependencies]
libc = "=0.2.191"
libc-print = "=0.1.23"
proc-macro2 = "=1.0.107"
quote = "=1.0.47"
syn = { version = "=2.0.119", features = ["full"] }
windows-sys = { version = "*", features = ["Win32_System_Performance"] }
