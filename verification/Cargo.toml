[package]
name = "realm"
version = "2.9.4"
edition = "2021"
publish = false

[dependencies]
cfg-if = "1"
chrono = "0.4"
clap = "=4.6.7"
fern = "=0.7.1"
futures = "0.3"
hickory-resolver = "=0.26.3"
http-body-util = "=0.1.5"
hyper = { version = "=1.12.0", features = ["http1", "server"] }
hyper-util = { version = "=0.1.21", features = ["tokio"] }
kaminari = { version = "0.14", features = ["ws", "tls"] }
libc = "0.2"
log = "0.4"
realm_io = "=0.5.4"
realm_lb = "=0.1.1"
realm_syscall = "=0.1.11"
serde = { version = "1", features = ["derive"] }
serde_json = "1"
tokio = { version = "=1.54.1", features = ["full"] }
tokio-util = { version = "=0.7.20", features = ["rt"] }
toml = "0.8"
