[package]
name = "ps_reclaim"
version = "0.1.0"
edition = "2021"
publish = false

[dependencies]
libc = "0.2"
spin = { version = "0.9", default-features = false, features = ["mutex", "spin_mutex", "once"] }
windows-sys = { version = "0.59", features = ["Win32_System_Threading"] }
