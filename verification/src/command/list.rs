//! Listing: one row per bridge, in table order, pairing the bridge with
//! every registry entry that carries its listen address.

use vstd::prelude::*;

use crate::hosts::{matching, HostFile, HostItem, Selector};
use crate::netsh::{Bridge, NetSH};

verus! {

/// One row of the listing.
pub struct BridgeHosts {
    pub bridge: Bridge,
    pub hosts: Vec<HostItem>,
}

/// Builds the listing; how rows are printed is the caller's business.
pub fn process(netsh: &NetSH, hosts: &HostFile) -> (r: Vec<BridgeHosts>)
    ensures
        r@.len() == netsh.bridges@.len(),
        forall|i: int|
            0 <= i < r@.len() ==> (#[trigger] r@[i]).bridge == netsh.bridges@[i]
                && r@[i].hosts@.map_values(|it: HostItem| it@) == matching(
                hosts.recs(),
                Selector::Address(netsh.bridges@[i].listen_to.address),
            ),
{
    let n = netsh.bridges.len();
    let mut out: Vec<BridgeHosts> = Vec::new();
    let mut i: usize = 0;
    while i < n
        invariant
            0 <= i <= n,
            n == netsh.bridges@.len(),
            out@.len() == i,
            forall|k: int|
                0 <= k < i ==> (#[trigger] out@[k]).bridge == netsh.bridges@[k]
                    && out@[k].hosts@.map_values(|it: HostItem| it@) == matching(
                    hosts.recs(),
                    Selector::Address(netsh.bridges@[k].listen_to.address),
                ),
        decreases n - i,
    {
        let b = netsh.bridges[i];
        let found = hosts.find_by_address(b.listen_to.address);
        out.push(BridgeHosts { bridge: b, hosts: found });
        i = i + 1;
    }
    out
}

} // verus!
