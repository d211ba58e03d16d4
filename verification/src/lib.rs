//! A loopback-forwarding coordinator: it keeps an in-memory view of an
//! OS-level port-forwarding table and of a hostname mapping file, allocates
//! synthetic loopback listen addresses, and reconciles the two stores when
//! hosts are added or removed.

use vstd::prelude::*;

pub mod command;
pub mod hosts;
pub mod netsh;
pub mod text;

pub use hosts::{DeletionType, HostFile, HostItem, HostRec};
pub use netsh::{Bridge, NetSH, ProxyBridge};

verus! {

/// The failures the library itself can report. External-command and
/// permission failures are the caller's business: they happen outside the
/// library.
#[derive(Debug, Clone, Copy, PartialEq, Eq, Structural)]
pub enum HostingError {
    /// Malformed address, port, or record text.
    Parse,
    /// The external mapping file refused a write.
    Io,
    /// Address allocation gave up after the configured number of attempts.
    AddressSpaceExhausted,
}

/// An IPv4 address held as its four octets.
#[derive(Debug, Clone, Copy, PartialEq, Eq, Structural, Hash)]
pub struct Ipv4 {
    pub o0: u8,
    pub o1: u8,
    pub o2: u8,
    pub o3: u8,
}

impl Ipv4 {
    pub fn new(o0: u8, o1: u8, o2: u8, o3: u8) -> (r: Ipv4)
        ensures
            r == (Ipv4 { o0, o1, o2, o3 }),
    {
        Ipv4 { o0, o1, o2, o3 }
    }
}

/// An IPv4 address together with a port: one endpoint of a forwarding rule.
#[derive(Debug, Clone, Copy, PartialEq, Eq, Structural, Hash)]
pub struct Connection {
    pub address: Ipv4,
    pub port: u16,
}

impl Connection {
    /// Reads `address:port` text: a dotted quad, a colon, a port number.
    pub fn from_str(s: &str) -> (r: Result<Connection, HostingError>)
        ensures
            match r {
                Ok(c) => text::conn_of_text(s@) == Some(c),
                Err(e) => e == HostingError::Parse && text::conn_of_text(s@) is None,
            },
    {
        match text::parse_connection(s) {
            Some(c) => Ok(c),
            None => Err(HostingError::Parse),
        }
    }

    /// Writes the endpoint as `address:port` text; reading the text back
    /// gives this very endpoint.
    pub fn to_text(&self) -> (r: String)
        ensures
            text::conn_of_text(r@) == Some(*self),
    {
        proof {
            reveal_strlit(":");
        }
        let mut s = text::ipv4_to_text(self.address);
        let ghost p0 = s@;
        s.append(":");
        let p = text::dec_u16_text(self.port);
        s.append(p.as_str());
        proof {
            let v = s@;
            assert(":"@ =~= seq![':']);
            let j = p0.len() as int;
            assert(v =~= p0 + seq![':'] + p@);
            assert(v[j] == ':');
            assert forall|k: int| 0 <= k < j implies v[k] != ':' by {
                assert(v[k] == p0[k]);
                assert(text::is_digit_char(p0[k]) || p0[k] == '.');
            }
            text::lemma_find_from_at(v, ':', 0, j);
            assert(v.subrange(0, j) =~= p0);
            assert(v.subrange(j + 1, v.len() as int) =~= p@);
            assert(text::port_of_text(p@) == Some(self.port));
        }
        s
    }
}

impl From<(Ipv4, u16)> for Connection {
    fn from(value: (Ipv4, u16)) -> (r: Self)
        ensures
            r == (Connection { address: value.0, port: value.1 }),
    {
        Connection { address: value.0, port: value.1 }
    }
}

impl vstd::std_specs::convert::FromSpecImpl<(Ipv4, u16)> for Connection {
    open spec fn obeys_from_spec() -> bool {
        true
    }

    open spec fn from_spec(value: (Ipv4, u16)) -> Connection {
        Connection { address: value.0, port: value.1 }
    }
}

} // verus!
