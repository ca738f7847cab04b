//! The gateway's configuration as the rewrite engine sees it: its public
//! address (written into synthesized `Via` and `Contact` headers), the
//! internal signaling service's address (used to classify packet origin),
//! and the service version string.
//!
//! Addresses are held as a textual IP and a port, the two parts the header
//! rewriting reads; binding and socket handling live outside the library.

use vstd::prelude::*;

use crate::strutil::str_eq;

verus! {

/// The mathematical model of a socket address.
pub struct AddrModel {
    pub ip: Seq<char>,
    pub port: u16,
}

/// A socket address as a textual IP and a port.
pub struct NetAddr {
    pub ip: String,
    pub port: u16,
}

impl View for NetAddr {
    type V = AddrModel;

    open spec fn view(&self) -> AddrModel {
        AddrModel { ip: self.ip@, port: self.port }
    }
}

impl NetAddr {
    /// Whether two addresses are the same endpoint.
    pub fn addr_eq(&self, other: &NetAddr) -> (r: bool)
        ensures
            r == (self@ == other@),
    {
        str_eq(self.ip.as_str(), other.ip.as_str()) && self.port == other.port
    }

    /// A copy of this address.
    pub fn duplicate(&self) -> (r: NetAddr)
        ensures
            r@ == self@,
    {
        NetAddr { ip: self.ip.clone(), port: self.port }
    }
}

/// The mathematical model of the gateway configuration.
pub struct ConfigModel {
    pub public_ip: Seq<char>,
    pub public_port: u16,
    pub target: AddrModel,
    pub service_version: Seq<char>,
}

/// The configuration the rewrite engine works from.
pub struct AppConfig {
    /// The gateway's externally reachable IP, written into rewritten headers.
    pub public_ip: String,
    /// The gateway's externally reachable port.
    pub public_port: u16,
    /// The internal signaling service's address: the destination of inbound
    /// forwards, and the origin that marks a packet as internal.
    pub target_addr: NetAddr,
    /// The version string embedded in `Server` and `User-Agent` headers.
    pub service_version: String,
}

impl View for AppConfig {
    type V = ConfigModel;

    open spec fn view(&self) -> ConfigModel {
        ConfigModel {
            public_ip: self.public_ip@,
            public_port: self.public_port,
            target: self.target_addr@,
            service_version: self.service_version@,
        }
    }
}

} // verus!
