//! The configuration of the daemon.

use vstd::prelude::*;

use crate::net::{IpAddr, Ipv4Addr, Ipv6Addr};

verus! {

/// An IP address and a port.
#[derive(Clone, Copy, Debug, PartialEq, Eq, Structural)]
pub struct SocketAddr {
    pub ip: IpAddr,
    pub port: u16,
}

/// What the daemon is run as, and the path of its configuration.
#[derive(Clone, Debug)]
pub enum Commands {
    /// Run the encapsulation daemon.
    Encap { config: String },
    /// Run the decapsulation daemon.
    Decap { config: String },
}

/// The path of the configuration where none is given.
pub fn default_config_path() -> (r: String)
    ensures
        r@ == "config.toml"@,
{
    "config.toml".to_owned()
}

/// Configuration of the encapsulation daemon.
#[derive(Clone, Debug)]
pub struct EncapConfig {
    pub bgp: BgpConfig,
    pub ebpf: EbpfConfig,
    pub logging: LoggingConfig,
    pub metrics: MetricsConfig,
}

/// Configuration of the decapsulation daemon.
#[derive(Clone, Debug)]
pub struct DecapConfig {
    pub ebpf: EbpfConfig,
    pub logging: LoggingConfig,
    pub metrics: MetricsConfig,
}

#[derive(Clone, Debug)]
pub struct BgpConfig {
    /// ASN of the AS that we're running in.
    pub asn: u32,
    /// Our BGP ID.
    pub bgp_id: Ipv4Addr,
    /// IPv6 addresses of the peers that we establish BGP sessions with.
    pub peer_ips: Vec<Ipv6Addr>,
    /// BGP port used for both binding locally and connecting to peers.
    pub port: u16,
    /// Network interface name for link-local peer scoping.
    pub interface: Option<String>,
}

#[derive(Clone, Debug)]
pub struct EbpfConfig {
    /// Name of the network interface the eBPF program will bind to.
    pub interface: String,
}

#[derive(Clone, Debug)]
pub struct LoggingConfig {
    /// One of "OFF", "ERROR", "WARN", "INFO", "DEBUG", "TRACE".
    pub level: String,
}

#[derive(Clone, Debug)]
pub struct MetricsConfig {
    /// Address serving Prometheus metrics.
    pub listen_addr: SocketAddr,
}

/// The port that BGP has where the configuration names none.
pub fn default_bgp_port() -> (r: u16)
    ensures
        r == 179,
{
    179
}

/// The log level where the configuration names none.
pub fn default_log_level() -> (r: String)
    ensures
        r@ == "INFO"@,
{
    "INFO".to_owned()
}

/// Where metrics are served if the configuration does not say: port 9100 of
/// `127.0.0.1`.
pub fn default_metrics_listen_addr() -> (r: SocketAddr)
    ensures
        r == (SocketAddr { ip: IpAddr::V4(Ipv4Addr { bits: 0x7f00_0001 }), port: 9100 }),
{
    SocketAddr { ip: IpAddr::V4(Ipv4Addr { bits: 0x7f00_0001 }), port: 9100 }
}

} // verus!
