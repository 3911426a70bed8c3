//! Erez steers traffic over the paths that BGP offers, by the round-trip times
//! that eBPF programs measure on them.
//!
//! The daemon learns routes ([`bgp`]), keeps them and decides how traffic is
//! shared among nexthops ([`steering`], [`descent`]), gathers measurements
//! ([`rtt_aggregation`]) and talks to its eBPF programs ([`fib`], [`bpf`],
//! [`bpf_abi`], [`wire`]). The lab in which it is tried out is made of namespaces
//! ([`ns`], [`netlink`]), links and routers ([`topology`], [`bird`]), generated
//! traffic ([`traffic_gen`]) and a console ([`repl`]).

pub mod assoc;
pub mod bgp;
pub mod bird;
pub mod bpf;
pub mod bpf_abi;
pub mod bytes;
pub mod config;
pub mod descent;
pub mod eventually;
pub mod fib;
pub mod interface;
pub mod net;
pub mod netlink;
pub mod ns;
pub mod repl;
pub mod rtt_aggregation;
pub mod steering;
pub mod text;
pub mod topology;
pub mod traffic_gen;
pub mod wire;
