[package]
name = "udpipe"
version = "0.1.0"
edition = "2021"
publish = false

[dependencies]
byteorder = "1"
circbuf = "*"
ranges = "*"
libc = "0.2"
log = "0.4"
mio = { version = "0.7", features = ["os-poll", "os-util", "udp"] }
pico-args = "0.3"
simple-error = "0.2"
stderrlog = "0.5"
thiserror = "1"

[dev-dependencies]
rand = { version = "0.7", features = ["small_rng"] }
