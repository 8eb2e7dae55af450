//! Socket addresses as plain values, with their text form.

use vstd::prelude::*;

verus! {

/// An IPv4 or IPv6 socket address. The IP address is held as the integer
/// whose big-endian bytes are its octets.
#[allow(inconsistent_fields)]
#[derive(Debug, Clone, Copy, PartialEq, Eq, Structural, Hash)]
pub enum SocketAddress {
    V4 { ip: u32, port: u16 },
    V6 { ip: u128, port: u16, flowinfo: u32, scope_id: u32 },
}

/// The address that the text `s` denotes as a socket address, if any.
pub uninterp spec fn socket_address_of(s: Seq<char>) -> Option<SocketAddress>;

/// The text form of a socket address.
pub uninterp spec fn socket_address_text(a: SocketAddress) -> Seq<char>;

/// Relies on `core::net::SocketAddr`'s `FromStr`: parses `IP:PORT` for IPv4
/// and `[IP]:PORT` for IPv6; the result depends on the text alone.
#[verifier::external_body]
fn parse_socket_addr(s: &str) -> (r: Option<SocketAddress>)
    ensures
        r == socket_address_of(s@),
{
    match s.parse::<core::net::SocketAddr>() {
        Ok(core::net::SocketAddr::V4(a)) => Some(
            SocketAddress::V4 { ip: u32::from(*a.ip()), port: a.port() },
        ),
        Ok(core::net::SocketAddr::V6(a)) => Some(
            SocketAddress::V6 {
                ip: u128::from(*a.ip()),
                port: a.port(),
                flowinfo: a.flowinfo(),
                scope_id: a.scope_id(),
            },
        ),
        Err(_) => None,
    }
}

/// Relies on `core::net::SocketAddr`'s `Display`: the text form of an
/// address depends on the address alone.
#[verifier::external_body]
fn socket_addr_to_string(a: &SocketAddress) -> (r: String)
    ensures
        r@ == socket_address_text(*a),
{
    let sa = match *a {
        SocketAddress::V4 { ip, port } => core::net::SocketAddr::V4(
            core::net::SocketAddrV4::new(core::net::Ipv4Addr::from(ip), port),
        ),
        SocketAddress::V6 { ip, port, flowinfo, scope_id } => core::net::SocketAddr::V6(
            core::net::SocketAddrV6::new(core::net::Ipv6Addr::from(ip), port, flowinfo, scope_id),
        ),
    };
    sa.to_string()
}

impl SocketAddress {
    /// The IPv4 address `a.b.c.d:port`.
    pub fn v4(a: u8, b: u8, c: u8, d: u8, port: u16) -> (r: SocketAddress)
        ensures
            r matches SocketAddress::V4 { ip, port: p } && p == port && ip == a * 0x100_0000 + b
                * 0x1_0000 + c * 0x100 + d,
    {
        SocketAddress::V4 {
            ip: (a as u32) * 0x100_0000 + (b as u32) * 0x1_0000 + (c as u32) * 0x100 + d as u32,
            port,
        }
    }

    /// Parses a socket address such as `127.0.0.1:80` or `[::1]:80`.
    pub fn parse(s: &str) -> (r: Option<SocketAddress>)
        ensures
            r == socket_address_of(s@),
    {
        parse_socket_addr(s)
    }

    /// The text form of the address, such as `127.0.0.1:80`.
    pub fn to_text(&self) -> (r: String)
        ensures
            r@ == socket_address_text(*self),
    {
        socket_addr_to_string(self)
    }

    /// The port of the address.
    pub fn port(&self) -> (r: u16)
        ensures
            r == match *self {
                SocketAddress::V4 { port, .. } => port,
                SocketAddress::V6 { port, .. } => port,
            },
    {
        match *self {
            SocketAddress::V4 { port, .. } => port,
            SocketAddress::V6 { port, .. } => port,
        }
    }
}

} // verus!
