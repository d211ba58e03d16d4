//! Probing: resolves an input, by connect endpoint or by exact host name,
//! to the host entries and the bridge a demonstration listener would serve.
//! Running such a listener is the caller's business.

use vstd::prelude::*;

use crate::hosts::{
    find_host_from, lemma_find_host_from, matching, HostFile, HostItem, HostRec, Selector,
};
use crate::netsh::{find_bridge_from, Bridge, NetSH};
use crate::text::{conn_of_text, find_char_from, find_from, lemma_find_from, parse_connection};
use crate::{Connection, HostingError};

verus! {

/// What a probe resolved to.
pub enum TestResolution {
    /// The entries to answer for and the bridge whose connect endpoint a
    /// listener would bind; the entry list is never empty.
    Found(Vec<HostItem>, Bridge),
    /// A connect endpoint was named and no bridge serves it.
    AddressNotFound,
    /// A host name was named and no bridge serves its entry's address.
    BridgeNotFound,
    /// A host name was named and no entry carries it.
    HostNotFound,
    /// A bridge was found but no entry carries its listen address.
    NoHosts,
}

/// What resolving the text `s` against the two stores yields.
pub open spec fn test_post(
    bs: Seq<Bridge>,
    hs: Seq<HostRec>,
    s: Seq<char>,
    r: Result<TestResolution, HostingError>,
) -> bool {
    if find_from(s, 0, ':') < s.len() {
        match conn_of_text(s) {
            None => r == Err::<TestResolution, HostingError>(HostingError::Parse),
            Some(c) => {
                let i = find_bridge_from(bs, c, 0);
                if i == bs.len() {
                    r is Ok && r->Ok_0 is AddressNotFound
                } else {
                    let sel = matching(hs, Selector::Address(bs[i].listen_to.address));
                    if sel.len() == 0 {
                        r is Ok && r->Ok_0 is NoHosts
                    } else {
                        match r {
                            Ok(TestResolution::Found(items, bridge)) => bridge == bs[i]
                                && items@.map_values(|it: HostItem| it@) == sel,
                            _ => false,
                        }
                    }
                }
            },
        }
    } else {
        let j = find_host_from(hs, s, 0);
        if j == hs.len() {
            r is Ok && r->Ok_0 is HostNotFound
        } else {
            let c = Connection { address: hs[j].address, port: 80 };
            let i = find_bridge_from(bs, c, 0);
            if i == bs.len() {
                r is Ok && r->Ok_0 is BridgeNotFound
            } else {
                match r {
                    Ok(TestResolution::Found(items, bridge)) => bridge == bs[i] && items@.len()
                        == 1 && items@[0]@ == hs[j],
                    _ => false,
                }
            }
        }
    }
}

/// Resolves the input to the entries and bridge a listener would serve.
pub fn process(addr_or_host: &str, netsh: &NetSH, hosts: &HostFile) -> (r: Result<
    TestResolution,
    HostingError,
>)
    ensures
        test_post(netsh.bridges@, hosts.recs(), addr_or_host@, r),
{
    let n = addr_or_host.unicode_len();
    let colon = find_char_from(addr_or_host, 0, ':');
    proof {
        lemma_find_from(addr_or_host@, 0, ':');
    }
    if colon < n {
        let connect_to = match parse_connection(addr_or_host) {
            None => {
                return Err(HostingError::Parse);
            },
            Some(c) => c,
        };
        match netsh.get_by_connection(connect_to) {
            None => Ok(TestResolution::AddressNotFound),
            Some(bridge) => {
                let b = *bridge;
                let items = hosts.find_by_address(b.listen_to.address);
                if items.len() == 0 {
                    Ok(TestResolution::NoHosts)
                } else {
                    Ok(TestResolution::Found(items, b))
                }
            },
        }
    } else {
        proof {
            lemma_find_host_from(hosts.recs(), addr_or_host@, 0);
        }
        match hosts.find_item_by_host(addr_or_host) {
            None => Ok(TestResolution::HostNotFound),
            Some(item) => {
                let entry = item.duplicate();
                let target = Connection { address: entry.address, port: 80 };
                proof {
                    let j = find_host_from(hosts.recs(), addr_or_host@, 0);
                    assert(entry@ == hosts.recs()[j]);
                    assert(target == (Connection { address: hosts.recs()[j].address, port: 80 }));
                }
                match netsh.get_by_connection(target) {
                    None => Ok(TestResolution::BridgeNotFound),
                    Some(bridge) => {
                        let b = *bridge;
                        let mut items: Vec<HostItem> = Vec::new();
                        items.push(entry);
                        Ok(TestResolution::Found(items, b))
                    },
                }
            },
        }
    }
}

} // verus!
