[package]
name = "vusbipd-ccid"
version = "0.1.0"
edition = "2021"
publish = false

[dependencies]
anyhow = "=1.0.104"
clap = { version = "=4.6.7", features = ["derive"] }
tokio = { version = "=1.54.1", features = ["rt-multi-thread", "macros", "net"] }
tracing = "=0.1.44"
tracing-subscriber = { version = "=0.3.23", features = ["env-filter"] }
tracing-log = "=0.2.0"
thiserror = "=1.0.69"
usbip = "=0.8.0"
pn532 = { version = "=0.5.0", features = ["std"] }
serialport = { version = "=4.10.1", default-features = false }
apdu-dispatch = "=0.4.1"
ctaphid-dispatch = "=0.4.0"
usbd-ccid = "=0.5.0"
usbd-ctaphid = "=0.5.0"
