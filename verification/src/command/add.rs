//! Registering a host: find or create the bridge for the requested connect
//! endpoint, then register the host name against the bridge's listen
//! address. When the registry refuses the write, a bridge this very call
//! created is dropped again, so a registry failure never leaves an orphan
//! forwarding rule; a pre-existing bridge is left alone.

use vstd::prelude::*;
use vstd::string::*;

use crate::hosts::{has_host, HostFile, HostRec};
use crate::netsh::{
    find_bridge_from, fresh_for, lemma_find_bridge_from, lemma_find_bridge_no_match_prefix,
    Bridge, NetSH,
};
use crate::text::{conn_of_text, parse_connection};
use crate::{Connection, HostingError};

verus! {

/// What an add operation did.
#[derive(Debug, Clone, Copy, PartialEq, Eq, Structural)]
pub enum AddOutcome {
    /// The bridge existed and the host name was already registered: no-op.
    AlreadyExists,
    /// A new bridge was created and the entry registered against it.
    AddedNew,
    /// The entry was registered against an existing bridge.
    AddedExisting,
}

/// What adding `host` at connect endpoint `c` does to the two stores.
///
/// On every failure both stores are exactly as before: in particular, a
/// registry write failure never leaves a forwarding rule this call created.
pub open spec fn add_post(
    pre_b: Seq<Bridge>,
    pre_h: Seq<HostRec>,
    post_b: Seq<Bridge>,
    post_h: Seq<HostRec>,
    fault: bool,
    c: Connection,
    host: Seq<char>,
    r: Result<AddOutcome, HostingError>,
) -> bool {
    match r {
        Err(HostingError::Parse) => false,
        Err(HostingError::AddressSpaceExhausted) => {
            &&& find_bridge_from(pre_b, c, 0) == pre_b.len()
            &&& post_b == pre_b
            &&& post_h == pre_h
        },
        Err(HostingError::Io) => {
            &&& fault
            &&& !(find_bridge_from(pre_b, c, 0) < pre_b.len() && has_host(pre_h, host))
            &&& post_b == pre_b
            &&& post_h == pre_h
        },
        Ok(AddOutcome::AlreadyExists) => {
            &&& find_bridge_from(pre_b, c, 0) < pre_b.len()
            &&& has_host(pre_h, host)
            &&& post_b == pre_b
            &&& post_h == pre_h
        },
        Ok(AddOutcome::AddedExisting) => {
            let b = pre_b[find_bridge_from(pre_b, c, 0)];
            &&& find_bridge_from(pre_b, c, 0) < pre_b.len()
            &&& !has_host(pre_h, host)
            &&& !fault
            &&& post_b == pre_b
            &&& post_h == pre_h.push(HostRec { address: b.listen_to.address, host })
        },
        Ok(AddOutcome::AddedNew) => {
            &&& find_bridge_from(pre_b, c, 0) == pre_b.len()
            &&& !fault
            &&& post_b.len() == pre_b.len() + 1
            &&& post_b == pre_b.push(post_b.last())
            &&& post_b.last().connect_to == c
            &&& post_b.last().listen_to.port == 80
            &&& fresh_for(pre_b, post_b.last().listen_to.address)
            &&& post_b.last().listen_to.address.o0 == 127
            &&& !(post_b.last().listen_to.address.o1 == 0 && post_b.last().listen_to.address.o2
                == 0)
            &&& post_h == pre_h.push(
                HostRec { address: post_b.last().listen_to.address, host },
            )
        },
    }
}

/// Adding the same pair twice is idempotent: once a registration has gone
/// through, repeating it with the same endpoint and host name is a no-op
/// that reports the pair as already present, so the whole exchange grows
/// the registry by exactly one entry and the second call moves no bridge.
pub proof fn lemma_add_idempotent(
    b0: Seq<Bridge>,
    h0: Seq<HostRec>,
    b1: Seq<Bridge>,
    h1: Seq<HostRec>,
    b2: Seq<Bridge>,
    h2: Seq<HostRec>,
    fault: bool,
    c: Connection,
    host: Seq<char>,
    r1: Result<AddOutcome, HostingError>,
    r2: Result<AddOutcome, HostingError>,
)
    requires
        add_post(b0, h0, b1, h1, fault, c, host, r1),
        add_post(b1, h1, b2, h2, fault, c, host, r2),
        r1 == Ok::<AddOutcome, HostingError>(AddOutcome::AddedNew) || r1 == Ok::<
            AddOutcome,
            HostingError,
        >(AddOutcome::AddedExisting),
    ensures
        h1.len() == h0.len() + 1,
        r2 == Ok::<AddOutcome, HostingError>(AddOutcome::AlreadyExists),
        b2 == b1,
        h2 == h1,
{
    crate::hosts::lemma_find_host_from(h1, host, 0);
    assert(h1.last().host == host);
    assert(has_host(h1, host));
    lemma_find_bridge_from(b1, c, 0);
    if r1 == Ok::<AddOutcome, HostingError>(AddOutcome::AddedNew) {
        assert(crate::netsh::bridge_matches(b1.last(), c));
        assert(find_bridge_from(b1, c, 0) < b1.len());
    }
}

/// Bridge sharing: two different hosts registered at the same connect
/// endpoint come out with one bridge between them. After a registration
/// created a bridge, registering a further, new host name at the same
/// endpoint reuses that bridge, adds no other, and both entries carry its
/// listen address.
pub proof fn lemma_bridge_sharing(
    b0: Seq<Bridge>,
    h0: Seq<HostRec>,
    b1: Seq<Bridge>,
    h1: Seq<HostRec>,
    b2: Seq<Bridge>,
    h2: Seq<HostRec>,
    fault: bool,
    c: Connection,
    host_a: Seq<char>,
    host_b: Seq<char>,
    r1: Result<AddOutcome, HostingError>,
    r2: Result<AddOutcome, HostingError>,
)
    requires
        add_post(b0, h0, b1, h1, fault, c, host_a, r1),
        add_post(b1, h1, b2, h2, fault, c, host_b, r2),
        r1 == Ok::<AddOutcome, HostingError>(AddOutcome::AddedNew),
        host_b != host_a,
        !has_host(h0, host_b),
    ensures
        r2 == Ok::<AddOutcome, HostingError>(AddOutcome::AddedExisting),
        b2 == b1,
        b1.len() == b0.len() + 1,
        h2.len() == h0.len() + 2,
        h1[h0.len() as int].address == b1.last().listen_to.address,
        h2[h0.len() as int + 1].address == b1.last().listen_to.address,
{
    crate::hosts::lemma_find_host_from(h0, host_b, 0);
    crate::hosts::lemma_find_host_from(h1, host_b, 0);
    assert(forall|k: int| 0 <= k < h1.len() ==> #[trigger] h1[k].host != host_b);
    assert(!has_host(h1, host_b));
    lemma_find_bridge_from(b1, c, 0);
    assert(crate::netsh::bridge_matches(b1.last(), c));
    assert(find_bridge_from(b1, c, 0) < b1.len());
    lemma_find_bridge_from(b0, c, 0);
    lemma_find_bridge_no_match_prefix(b1, c, 0, b0.len() as int);
    assert(find_bridge_from(b1, c, b0.len() as int) == b0.len());
    assert(find_bridge_from(b1, c, 0) == b0.len());
    assert(b1[find_bridge_from(b1, c, 0)] == b1.last());
}

/// Registers `host` under the connect endpoint written in `address_str`.
pub fn process(address_str: &str, host: &str, netsh: &mut NetSH, hosts: &mut HostFile) -> (r:
    Result<AddOutcome, HostingError>)
    requires
        old(netsh).inv(),
    ensures
        final(netsh).inv(),
        final(hosts).uses_host_file == old(hosts).uses_host_file,
        final(hosts).write_fault == old(hosts).write_fault,
        match conn_of_text(address_str@) {
            None => r == Err::<AddOutcome, HostingError>(HostingError::Parse)
                && final(netsh).bridges@ == old(netsh).bridges@ && final(hosts).recs() == old(
                hosts,
            ).recs(),
            Some(c) => add_post(
                old(netsh).bridges@,
                old(hosts).recs(),
                final(netsh).bridges@,
                final(hosts).recs(),
                old(hosts).fault(),
                c,
                host@,
                r,
            ),
        },
{
    let connect_to = match parse_connection(address_str) {
        None => {
            return Err(HostingError::Parse);
        },
        Some(c) => c,
    };
    let (bridge, is_new) = match netsh.add_or_retreive(connect_to) {
        Err(e) => {
            return Err(e);
        },
        Ok(p) => p,
    };
    if !is_new && hosts.find_item_by_host(host).is_some() {
        return Ok(AddOutcome::AlreadyExists);
    }
    let ghost mid_b = netsh.bridges@;
    match hosts.add(bridge.listen_to.address, String::from_str(host)) {
        Err(e) => {
            if is_new {
                proof {
                    lemma_find_bridge_from(old(netsh).bridges@, connect_to, 0);
                    assert(forall|k: int|
                        0 <= k < old(netsh).bridges@.len() ==> !crate::netsh::bridge_matches(
                            #[trigger] mid_b[k],
                            connect_to,
                        ));
                    lemma_find_bridge_no_match_prefix(
                        mid_b,
                        connect_to,
                        0,
                        old(netsh).bridges@.len() as int,
                    );
                    assert(crate::netsh::bridge_matches(mid_b.last(), connect_to));
                    assert(find_bridge_from(mid_b, connect_to, 0) == old(netsh).bridges@.len());
                }
                let _ = netsh.delete(connect_to);
                proof {
                    assert(mid_b.remove(mid_b.len() - 1) =~= old(netsh).bridges@);
                }
            }
            return Err(e);
        },
        Ok(()) => {},
    }
    if is_new {
        Ok(AddOutcome::AddedNew)
    } else {
        Ok(AddOutcome::AddedExisting)
    }
}

} // verus!
