[package]
name = "pathrs"
version = "0.1.0"
edition = "2021"
publish = false

[dependencies]
backtrace = "0.3"
libc = "0.2"
snafu = { version = "0.6", features = ["backtraces-impl-backtrace-crate"] }
