//! Plain-value network addresses: what the logic reads of a socket address.

use vstd::prelude::*;

verus! {

/// An IP address by its octets (IPv4) or 16-bit segments (IPv6).
#[derive(Clone, Copy, Debug, PartialEq, Eq)]
pub enum IpAddress {
    V4([u8; 4]),
    V6([u16; 8]),
}

/// An IP address and a port.
#[derive(Clone, Copy, Debug, PartialEq, Eq)]
pub struct SockAddr {
    pub ip: IpAddress,
    pub port: u16,
}

/// The IPv4 address an IPv4-mapped IPv6 address (`::ffff:a.b.c.d`) stands
/// for, if it is one.
pub open spec fn ipv4_mapped_spec(seg: [u16; 8]) -> Option<[u8; 4]> {
    if seg[0] == 0 && seg[1] == 0 && seg[2] == 0 && seg[3] == 0 && seg[4] == 0 && seg[5] == 0xffff {
        Some([(seg[6] / 256) as u8, (seg[6] % 256) as u8, (seg[7] / 256) as u8, (seg[7] % 256) as u8])
    } else {
        None
    }
}

/// An address with IPv4-mapped IPv6 unwrapped to IPv4.
pub open spec fn unmapped_spec(ip: IpAddress) -> IpAddress {
    match ip {
        IpAddress::V6(seg) => match ipv4_mapped_spec(seg) {
            Some(v4) => IpAddress::V4(v4),
            None => ip,
        },
        IpAddress::V4(_) => ip,
    }
}

/// How a log line shows an address: IPv4-mapped IPv6 unwrapped, and the
/// port left out when it is `default_port`.
pub fn log_form(addr: SockAddr, default_port: u16) -> (r: (IpAddress, Option<u16>))
    ensures
        r.0 == unmapped_spec(addr.ip),
        r.1 == if addr.port == default_port { None } else { Some(addr.port) },
{
    let ip = match addr.ip {
        IpAddress::V6(seg) => {
            if seg[0] == 0 && seg[1] == 0 && seg[2] == 0 && seg[3] == 0 && seg[4] == 0 && seg[5] == 0xffff {
                IpAddress::V4([(seg[6] / 256) as u8, (seg[6] % 256) as u8, (seg[7] / 256) as u8, (seg[7] % 256) as u8])
            } else {
                addr.ip
            }
        },
        IpAddress::V4(_) => addr.ip,
    };
    let port = if addr.port == default_port { None } else { Some(addr.port) };
    (ip, port)
}

} // verus!
