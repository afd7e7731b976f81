//! Plain-value model of IP addressing.
//!
//! Addresses are held as integers (an IPv4 address as a `u32`, an IPv6
//! address as a `u128`), a subnet as its address plus a prefix length, and a
//! socket address as address, port and scope id. All classification rules
//! (loopback, RFC 1918, link-local, unique-local) are bit tests on those
//! integers.

use vstd::prelude::*;

verus! {

/// An IP address of either family.
#[derive(Clone, Copy, Debug, PartialEq, Eq, Structural)]
pub enum IpAddress {
    V4(u32),
    V6(u128),
}

impl IpAddress {
    pub open spec fn spec_is_v4(self) -> bool {
        self is V4
    }

    pub fn is_v4(&self) -> (r: bool)
        ensures
            r == self.spec_is_v4(),
    {
        match self {
            IpAddress::V4(_) => true,
            IpAddress::V6(_) => false,
        }
    }
}

/// A subnet: an interface address together with its prefix length.
///
/// Well-formed subnets have a prefix no longer than the address width.
#[derive(Clone, Copy, Debug, PartialEq, Eq, Structural)]
pub struct IpNet {
    pub addr: IpAddress,
    pub prefix: u8,
}

impl IpNet {
    pub open spec fn wf(self) -> bool {
        match self.addr {
            IpAddress::V4(_) => self.prefix <= 32,
            IpAddress::V6(_) => self.prefix <= 128,
        }
    }
}

/// A socket address: IP address, port, and (for link-local IPv6) the scope id
/// of the interface the address lives on.
#[derive(Clone, Copy, Debug, PartialEq, Eq, Structural)]
pub struct SocketAddress {
    pub ip: IpAddress,
    pub port: u16,
    pub scope_id: u32,
}

/// 127.0.0.1 as an integer.
pub const IPV4_LOCALHOST: u32 = 0x7f000001;

pub open spec fn spec_ipv4_is_loopback(ip: u32) -> bool {
    ip >> 24 == 0x7fu32
}

/// Whether an IPv4 address lies in 127.0.0.0/8.
pub fn ipv4_is_loopback(ip: u32) -> (r: bool)
    ensures
        r == spec_ipv4_is_loopback(ip),
{
    ip >> 24 == 0x7f
}

pub open spec fn spec_ipv4_is_rfc1918(ip: u32) -> bool {
    ||| ip >> 24 == 0x0au32
    ||| ip >> 20 == 0xac1u32
    ||| ip >> 16 == 0xc0a8u32
}

/// Whether an IPv4 address lies in one of the RFC 1918 private ranges
/// (10.0.0.0/8, 172.16.0.0/12, 192.168.0.0/16).
pub fn ipv4_is_rfc1918(ip: u32) -> (r: bool)
    ensures
        r == spec_ipv4_is_rfc1918(ip),
{
    ip >> 24 == 0x0a || ip >> 20 == 0xac1 || ip >> 16 == 0xc0a8
}

pub open spec fn spec_ipv6_is_link_local(ip: u128) -> bool {
    ip >> 118 == 0x3fau128
}

/// Whether an IPv6 address lies in fe80::/10.
pub fn ipv6_is_link_local(ip: u128) -> (r: bool)
    ensures
        r == spec_ipv6_is_link_local(ip),
{
    ip >> 118 == 0x3fa
}

pub open spec fn spec_ipv6_is_unique_local(ip: u128) -> bool {
    ip >> 121 == 0x7eu128
}

/// Whether an IPv6 address lies in fc00::/7 (unique local addresses).
pub fn ipv6_is_unique_local(ip: u128) -> (r: bool)
    ensures
        r == spec_ipv6_is_unique_local(ip),
{
    ip >> 121 == 0x7e
}

pub open spec fn spec_net_contains(net: IpNet, ip: IpAddress) -> bool {
    match (net.addr, ip) {
        (IpAddress::V4(a), IpAddress::V4(b)) => {
            if net.prefix == 0 {
                true
            } else if net.prefix >= 32 {
                a == b
            } else {
                a >> (32 - net.prefix) as u32 == b >> (32 - net.prefix) as u32
            }
        },
        (IpAddress::V6(a), IpAddress::V6(b)) => {
            if net.prefix == 0 {
                true
            } else if net.prefix >= 128 {
                a == b
            } else {
                a >> (128 - net.prefix) as u128 == b >> (128 - net.prefix) as u128
            }
        },
        _ => false,
    }
}

/// Whether `ip` lies in the subnet `net`: the two share the prefix bits.
/// Addresses of the other family are never contained.
pub fn net_contains(net: &IpNet, ip: &IpAddress) -> (r: bool)
    ensures
        r == spec_net_contains(*net, *ip),
{
    match (&net.addr, ip) {
        (IpAddress::V4(a), IpAddress::V4(b)) => {
            if net.prefix == 0 {
                true
            } else if net.prefix >= 32 {
                a == b
            } else {
                *a >> (32 - net.prefix) as u32 == *b >> (32 - net.prefix) as u32
            }
        },
        (IpAddress::V6(a), IpAddress::V6(b)) => {
            if net.prefix == 0 {
                true
            } else if net.prefix >= 128 {
                a == b
            } else {
                *a >> (128 - net.prefix) as u128 == *b >> (128 - net.prefix) as u128
            }
        },
        _ => false,
    }
}

/// The socket address a gateway subnet contributes for a given port: the
/// subnet's interface address, with the gateway's scope id attached when the
/// address is link-local IPv6.
pub open spec fn spec_bind_addr(net: IpNet, port: u16, scope_id: u32) -> SocketAddress {
    match net.addr {
        IpAddress::V6(ip6) => SocketAddress {
            ip: net.addr,
            port,
            scope_id: if spec_ipv6_is_link_local(ip6) {
                scope_id
            } else {
                0
            },
        },
        IpAddress::V4(_) => SocketAddress { ip: net.addr, port, scope_id: 0 },
    }
}

pub fn bind_addr(net: &IpNet, port: u16, scope_id: u32) -> (r: SocketAddress)
    ensures
        r == spec_bind_addr(*net, port, scope_id),
{
    match &net.addr {
        IpAddress::V6(ip6) => SocketAddress {
            ip: net.addr,
            port,
            scope_id: if ipv6_is_link_local(*ip6) {
                scope_id
            } else {
                0
            },
        },
        IpAddress::V4(_) => SocketAddress { ip: net.addr, port, scope_id: 0 },
    }
}

} // verus!
