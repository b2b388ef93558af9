[package]
name = "taproot"
version = "0.1.0"
edition = "2021"
publish = false

[dependencies]
libc = "0.2"
errno = "0.3"
rustix = { version = "1", features = ["fs", "process", "thread", "time", "event", "termios", "mm", "runtime", "shm", "stdio", "param"] }
rustix-futex-sync = "*"
