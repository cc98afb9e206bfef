[package]
name = "clmalloc"
version = "0.1.0"
edition = "2021"
publish = false

[dependencies]
backtrace = "0.3"
flate2 = "1"
libc = "0.2"
rand = "*"
spin = "*"

[dev-dependencies]
pprof = { version = "*", default-features = false, features = ["prost-codec"] }
