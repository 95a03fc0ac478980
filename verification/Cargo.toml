[package]
name = "eos_base"
version = "0.1.0"
edition = "2021"
publish = false

[dependencies]
psf-rs = "=2.2.0"
ransid = "=0.5.0"
orbclient = { version = "=0.4.6", default-features = false, features = ["unifont"] }
range-alloc = "=0.1.5"
drm-fourcc = "=2.2.0"
drm-sys = "=0.8.1"
drm = "=0.15.0"
smallvec = "=1.16.4"
plain = "=0.2.3"
serde = { version = "=1.0.229", features = ["derive"] }
toml = "=1.1.8"
libc = "=0.2.191"
redox_syscall = "=0.9.5"
libredox = "=0.2.0"
redox-scheme = "=0.12.0"
redox_event = "=0.5.0"
ioslice = "=0.6.0"
log = "=0.4.35"
anyhow = "=1.0.104"
futures = "=0.3.34"
