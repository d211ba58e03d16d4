//! Unregistering: an input with a colon names a connect endpoint, and every
//! registry entry on the serving bridge's listen address goes, together with
//! the bridge; an input without one is a host-name substring, and only the
//! matching entries go, each bridge following only once nothing references
//! its listen address any more.

use vstd::prelude::*;
use vstd::string::*;

use crate::hosts::{
    count_addr, lemma_matching_address_count, lemma_matching_matches,
    lemma_remove_matching_address_count, matching, remove_matching, DeletionType,
    HostFile, HostItem, HostRec, Selector,
};
use crate::netsh::{
    bridge_matches, bridges_inv, find_bridge_from, lemma_find_bridge_from,
    lemma_find_bridge_no_match_prefix, lemma_unique_listen_match, Bridge, NetSH,
};
use crate::text::{conn_of_text, find_char_from, find_from, lemma_find_from, parse_connection};
use crate::{Connection, HostingError};

verus! {

/// A sequence read back to front.
pub open spec fn rev<A>(s: Seq<A>) -> Seq<A> {
    Seq::new(s.len(), |i: int| s[s.len() - 1 - i])
}

/// One step of the bridge cleanup that follows a host-name removal: for the
/// endpoint `(e.address, 80)`, the first serving bridge is dropped, unless
/// none serves it or some remaining registry entry still carries its listen
/// address.
pub open spec fn prune_step(bs: Seq<Bridge>, e: HostRec, hs: Seq<HostRec>) -> Seq<Bridge> {
    let c = Connection { address: e.address, port: 80 };
    let i = find_bridge_from(bs, c, 0);
    if i == bs.len() {
        bs
    } else if count_addr(hs, bs[i].listen_to.address) != 0 {
        bs
    } else {
        bs.remove(i)
    }
}

/// The bridge cleanup over every removed entry in turn, against the registry
/// contents `hs` left after the removal.
pub open spec fn prune(bs: Seq<Bridge>, removed: Seq<HostRec>, hs: Seq<HostRec>) -> Seq<Bridge>
    decreases removed.len(),
{
    if removed.len() == 0 {
        bs
    } else {
        prune(prune_step(bs, removed[0], hs), removed.subrange(1, removed.len() as int), hs)
    }
}

proof fn lemma_remove_contains(bs: Seq<Bridge>, i: int, b: Bridge)
    requires
        0 <= i < bs.len(),
    ensures
        bs.remove(i).contains(b) ==> bs.contains(b),
        bs.contains(b) && b != bs[i] ==> bs.remove(i).contains(b),
{
    if bs.remove(i).contains(b) {
        let k = choose|k: int| 0 <= k < bs.remove(i).len() && bs.remove(i)[k] == b;
        if k < i {
            assert(bs[k] == b);
        } else {
            assert(bs[k + 1] == b);
        }
    }
    if bs.contains(b) && b != bs[i] {
        let m = choose|m: int| 0 <= m < bs.len() && bs[m] == b;
        if m < i {
            assert(bs.remove(i)[m] == b);
        } else {
            assert(bs.remove(i)[m - 1] == b);
        }
    }
}

/// The cleanup only ever drops bridges, and it drops a bridge only when no
/// remaining registry entry carries its listen address.
pub proof fn lemma_prune_only_unreferenced(bs: Seq<Bridge>, removed: Seq<HostRec>, hs: Seq<
    HostRec,
>)
    ensures
        forall|b: Bridge| #[trigger] prune(bs, removed, hs).contains(b) ==> bs.contains(b),
        forall|b: Bridge|
            bs.contains(b) && !(#[trigger] prune(bs, removed, hs).contains(b)) ==> count_addr(
                hs,
                b.listen_to.address,
            ) == 0,
    decreases removed.len(),
{
    if removed.len() != 0 {
        let bs1 = prune_step(bs, removed[0], hs);
        let rest = removed.subrange(1, removed.len() as int);
        lemma_prune_only_unreferenced(bs1, rest, hs);
        let c = Connection { address: removed[0].address, port: 80 };
        let i = find_bridge_from(bs, c, 0);
        lemma_find_bridge_from(bs, c, 0);
        assert(prune(bs, removed, hs) == prune(bs1, rest, hs));
        assert forall|b: Bridge| #[trigger] prune(bs, removed, hs).contains(b) implies bs.contains(
            b,
        ) by {
            assert(prune(bs1, rest, hs).contains(b));
            if i < bs.len() && count_addr(hs, bs[i].listen_to.address) == 0 {
                lemma_find_bridge_from(bs, c, 0);
                lemma_remove_contains(bs, i, b);
                assert(bs1 == bs.remove(i));
            } else {
                assert(bs1 == bs);
            }
        }
        assert forall|b: Bridge|
            bs.contains(b) && !(#[trigger] prune(bs, removed, hs).contains(b)) implies count_addr(
            hs,
            b.listen_to.address,
        ) == 0 by {
            lemma_find_bridge_from(bs, c, 0);
            if bs1.contains(b) {
            } else {
                assert(i < bs.len() && count_addr(hs, bs[i].listen_to.address) == 0);
                lemma_remove_contains(bs, i, b);
                assert(b == bs[i]);
            }
        }
    }
}

/// What removing by the text `s` does to the two stores.
///
/// With a colon in `s`, it names a connect endpoint: every registry entry
/// carrying the serving bridge's listen address goes, and, when at least one
/// did, that bridge goes too. Without a colon, `s` is a host-name
/// substring: exactly the matching entries go, and the bridge cleanup
/// (`prune`) drops a bridge only when no remaining entry carries its listen
/// address. On every failure both stores are exactly as before.
pub open spec fn remove_post(
    pre_b: Seq<Bridge>,
    pre_h: Seq<HostRec>,
    post_b: Seq<Bridge>,
    post_h: Seq<HostRec>,
    fault: bool,
    s: Seq<char>,
    r: Result<(), HostingError>,
) -> bool {
    if find_from(s, 0, ':') < s.len() {
        match conn_of_text(s) {
            None => r == Err::<(), HostingError>(HostingError::Parse) && post_b == pre_b && post_h
                == pre_h,
            Some(c) => {
                let i = find_bridge_from(pre_b, c, 0);
                if i == pre_b.len() {
                    r == Ok::<(), HostingError>(()) && post_b == pre_b && post_h == pre_h
                } else {
                    let a = pre_b[i].listen_to.address;
                    if fault {
                        r == Err::<(), HostingError>(HostingError::Io) && post_b == pre_b && post_h
                            == pre_h
                    } else {
                        &&& r == Ok::<(), HostingError>(())
                        &&& post_h == remove_matching(pre_h, Selector::Address(a))
                        &&& count_addr(post_h, a) == 0
                        &&& (count_addr(pre_h, a) == 0 ==> post_b == pre_b)
                        &&& (count_addr(pre_h, a) > 0 ==> post_b == pre_b.remove(i))
                    }
                }
            },
        }
    } else {
        if fault {
            r == Err::<(), HostingError>(HostingError::Io) && post_b == pre_b && post_h == pre_h
        } else {
            &&& r == Ok::<(), HostingError>(())
            &&& post_h == remove_matching(pre_h, Selector::Host(s))
            &&& post_b == prune(pre_b, rev(matching(pre_h, Selector::Host(s))), post_h)
            &&& (forall|b: Bridge| #[trigger] post_b.contains(b) ==> pre_b.contains(b))
            &&& (forall|b: Bridge|
                pre_b.contains(b) && !(#[trigger] post_b.contains(b)) ==> count_addr(
                    post_h,
                    b.listen_to.address,
                ) == 0)
        }
    }
}

/// Unregisters by connect endpoint or by host-name substring.
pub fn process(addr_or_host: &str, netsh: &mut NetSH, hosts: &mut HostFile) -> (r: Result<
    (),
    HostingError,
>)
    requires
        old(netsh).inv(),
    ensures
        final(netsh).inv(),
        final(hosts).uses_host_file == old(hosts).uses_host_file,
        final(hosts).write_fault == old(hosts).write_fault,
        remove_post(
            old(netsh).bridges@,
            old(hosts).recs(),
            final(netsh).bridges@,
            final(hosts).recs(),
            old(hosts).fault(),
            addr_or_host@,
            r,
        ),
{
    let ghost pre_b = netsh.bridges@;
    let ghost pre_h = hosts.recs();
    let n = addr_or_host.unicode_len();
    let colon = find_char_from(addr_or_host, 0, ':');
    proof {
        lemma_find_from(addr_or_host@, 0, ':');
    }
    if colon < n {
        let connect_to = match parse_connection(addr_or_host) {
            None => {
                return Err(HostingError::Parse);
            },
            Some(c) => c,
        };
        let ghost i = find_bridge_from(pre_b, connect_to, 0);
        let found = match netsh.get_by_connection(connect_to) {
            None => None,
            Some(b) => Some(b.listen_to.address),
        };
        match found {
            None => Ok(()),
            Some(a) => {
                proof {
                    lemma_find_bridge_from(pre_b, connect_to, 0);
                }
                let removed = match hosts.delete(DeletionType::Address(a)) {
                    Err(e) => {
                        return Err(e);
                    },
                    Ok(v) => v,
                };
                proof {
                    lemma_matching_matches(pre_h, Selector::Address(a));
                    lemma_matching_address_count(pre_h, a);
                    lemma_remove_matching_address_count(pre_h, a);
                    lemma_unique_listen_match(pre_b, i);
                    assert(pre_b[i].listen_to == (Connection { address: a, port: 80 }));
                }
                let ghost c80 = Connection { address: a, port: 80 };
                let mut k: usize = 0;
                while k < removed.len()
                    invariant
                        0 <= k <= removed@.len(),
                        netsh.inv(),
                        bridges_inv(pre_b),
                        0 <= i < pre_b.len(),
                        c80 == (Connection { address: a, port: 80 }),
                        pre_b[i].listen_to == c80,
                        find_bridge_from(pre_b, c80, 0) == i,
                        forall|m: int|
                            0 <= m < pre_b.len() && m != i ==> !bridge_matches(
                                #[trigger] pre_b[m],
                                c80,
                            ),
                        forall|t: int| 0 <= t < removed@.len() ==> removed@[t]@.address == a,
                        k == 0 ==> netsh.bridges@ == pre_b,
                        k > 0 ==> netsh.bridges@ == pre_b.remove(i),
                        k > 0 ==> forall|m: int|
                            0 <= m < netsh.bridges@.len() ==> !bridge_matches(
                                #[trigger] netsh.bridges@[m],
                                c80,
                            ),
                    decreases removed@.len() - k,
                {
                    let e = &removed[k];
                    let target = Connection { address: e.address, port: 80 };
                    assert(target == c80);
                    if k == 0 {
                        proof {
                            lemma_find_bridge_from(netsh.bridges@, c80, 0);
                        }
                        let _ = netsh.delete(target);
                        proof {
                            let nbs = netsh.bridges@;
                            assert(nbs == pre_b.remove(i));
                            assert forall|m: int| 0 <= m < nbs.len() implies !bridge_matches(
                                #[trigger] nbs[m],
                                c80,
                            ) by {
                                if m < i {
                                    assert(nbs[m] == pre_b[m]);
                                } else {
                                    assert(nbs[m] == pre_b[m + 1]);
                                }
                            }
                        }
                    } else {
                        proof {
                            lemma_find_bridge_no_match_prefix(
                                netsh.bridges@,
                                c80,
                                0,
                                netsh.bridges@.len() as int,
                            );
                        }
                        let _ = netsh.delete(target);
                    }
                    k = k + 1;
                }
                proof {
                    if removed@.len() == 0 {
                        assert(count_addr(pre_h, a) == 0);
                    } else {
                        assert(count_addr(pre_h, a) > 0);
                    }
                }
                Ok(())
            },
        }
    } else {
        let removed = match hosts.delete(DeletionType::Host(addr_or_host)) {
            Err(e) => {
                return Err(e);
            },
            Ok(v) => v,
        };
        let ghost hs = hosts.recs();
        let ghost sel = matching(pre_h, Selector::Host(addr_or_host@));
        let ghost rem = removed@.map_values(|it: HostItem| it@);
        proof {
            assert(rem =~= rev(sel));
            assert(rem.subrange(0, rem.len() as int) =~= rem);
        }
        let ghost h_uses = hosts.uses_host_file;
        let ghost h_fault = hosts.write_fault;
        let mut k: usize = 0;
        while k < removed.len()
            invariant
                0 <= k <= removed@.len(),
                netsh.inv(),
                rem == removed@.map_values(|it: HostItem| it@),
                hosts.recs() == hs,
                hosts.uses_host_file == h_uses,
                hosts.write_fault == h_fault,
                prune(pre_b, rem, hs) == prune(
                    netsh.bridges@,
                    rem.subrange(k as int, rem.len() as int),
                    hs,
                ),
            decreases removed@.len() - k,
        {
            let ghost cur = netsh.bridges@;
            let e = &removed[k];
            let target = Connection { address: e.address, port: 80 };
            assert(rem.subrange(k as int, rem.len() as int)[0] == rem[k as int]);
            assert(rem[k as int] == removed@[k as int]@);
            let keep = match netsh.get_by_connection(target) {
                Some(bridge) => hosts.count_addresses(bridge.listen_to.address) != 0,
                None => false,
            };
            if !keep {
                let _ = netsh.delete(target);
            }
            proof {
                assert(netsh.bridges@ == prune_step(cur, rem[k as int], hs));
                assert(rem.subrange(k as int, rem.len() as int).subrange(
                    1,
                    rem.len() - k,
                ) =~= rem.subrange(k + 1, rem.len() as int));
            }
            k = k + 1;
        }
        proof {
            assert(rem.subrange(rem.len() as int, rem.len() as int) =~= Seq::<HostRec>::empty());
            assert(netsh.bridges@ == prune(pre_b, rem, hs));
            lemma_prune_only_unreferenced(pre_b, rem, hs);
        }
        Ok(())
    }
}

} // verus!
