[package]
name = "erez"
version = "0.1.0"
edition = "2021"
publish = false

[dependencies]
anyhow = "1"
askama = "*"
axum = "*"
bytemuck = "1"
clap = { version = "4", features = ["derive", "env"] }
futures = "0.3"
ipnet = "2"
libbpf-rs = "*"
libc = "0.2"
netgauze-bgp-pkt = "*"
netgauze-bgp-speaker = "*"
netgauze-iana = "*"
netlink-packet-route = "*"
network-interface = "*"
nix = { version = "0.30", features = ["fs", "mount", "process", "sched", "signal", "term", "time", "user"] }
prometheus-client = "*"
rand = "0.9"
ratelimit = "*"
reedline = "*"
rtnetlink = "*"
serde = { version = "1", features = ["derive"] }
shlex = "1"
tokio = { version = "1", features = ["full"] }
tokio-util = { version = "0.7", features = ["rt"] }
toml = "*"
tracing = "0.1"
