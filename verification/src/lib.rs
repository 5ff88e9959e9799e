//! Verified core of a daemon that publishes WireGuard interfaces and peers
//! as D-Bus objects and keeps that view in sync with the kernel.

pub mod device;
pub mod net;
pub mod peer;
pub mod service;
pub mod strings;
pub mod text;
