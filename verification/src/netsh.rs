//! The bridge table: an in-memory view of the OS port-forwarding facility.
//!
//! The library parses the external tool's list output, decides which rules
//! to create or drop, and keeps the invariant that listen endpoints are
//! never shared; running the external tool itself is the embedding
//! program's job.

use vstd::prelude::*;
use vstd::string::*;

use crate::text::{
    ipv4_of_text, lines_from, parse_ipv4, parse_port, port_of_text, skip_ws, split_lines,
    lemma_skip_ws, lemma_token_end, skip_ws_from, token_end, token_end_from,
};
use crate::{Connection, HostingError, Ipv4};

verus! {

/// One forwarding rule: traffic to the synthetic loopback `listen_to`
/// endpoint is relayed to the real `connect_to` endpoint.
#[derive(Debug, Clone, Copy, PartialEq, Eq, Structural)]
pub struct Bridge {
    pub listen_to: Connection,
    pub connect_to: Connection,
}

/// The protocol family the forwarding tool is addressed in.
#[derive(Debug, Clone, Copy)]
pub enum ProxyBridge {
    V4ToV4,
}

impl ProxyBridge {
    /// The word the forwarding tool's command line uses for this family.
    pub fn into_str(self) -> (r: &'static str)
        ensures
            r@ == "v4tov4"@,
    {
        match self {
            ProxyBridge::V4ToV4 => "v4tov4",
        }
    }
}

/// A bridge serves an endpoint when the endpoint is either of its sides.
pub open spec fn bridge_matches(b: Bridge, c: Connection) -> bool {
    b.listen_to == c || b.connect_to == c
}

/// Index of the first bridge at or after `i` serving `c`, or `bs.len()`.
pub open spec fn find_bridge_from(bs: Seq<Bridge>, c: Connection, i: int) -> int
    decreases bs.len() - i,
{
    if i < 0 || i >= bs.len() {
        bs.len() as int
    } else if bridge_matches(bs[i], c) {
        i
    } else {
        find_bridge_from(bs, c, i + 1)
    }
}

pub proof fn lemma_find_bridge_from(bs: Seq<Bridge>, c: Connection, i: int)
    requires
        0 <= i <= bs.len(),
    ensures
        i <= find_bridge_from(bs, c, i) <= bs.len(),
        find_bridge_from(bs, c, i) < bs.len() ==> bridge_matches(bs[find_bridge_from(bs, c, i)], c),
        forall|k: int| i <= k < find_bridge_from(bs, c, i) ==> !bridge_matches(bs[k], c),
    decreases bs.len() - i,
{
    if i < bs.len() && !bridge_matches(bs[i], c) {
        lemma_find_bridge_from(bs, c, i + 1);
    }
}

pub proof fn lemma_find_bridge_no_match_prefix(bs: Seq<Bridge>, c: Connection, i: int, j: int)
    requires
        0 <= i <= j <= bs.len(),
        forall|k: int| i <= k < j ==> !bridge_matches(#[trigger] bs[k], c),
    ensures
        find_bridge_from(bs, c, i) == find_bridge_from(bs, c, j),
    decreases j - i,
{
    if i < j {
        lemma_find_bridge_no_match_prefix(bs, c, i + 1, j);
    }
}

/// Under the table invariant, a bridge's own listen endpoint is served by
/// that bridge alone.
pub proof fn lemma_unique_listen_match(bs: Seq<Bridge>, i: int)
    requires
        bridges_inv(bs),
        0 <= i < bs.len(),
    ensures
        find_bridge_from(bs, bs[i].listen_to, 0) == i,
        forall|k: int|
            0 <= k < bs.len() && k != i ==> !bridge_matches(#[trigger] bs[k], bs[i].listen_to),
{
    let c = bs[i].listen_to;
    assert forall|k: int| 0 <= k < bs.len() && k != i implies !bridge_matches(
        #[trigger] bs[k],
        c,
    ) by {
        assert(bs[k].listen_to.address != bs[i].listen_to.address);
        assert(bs[k].connect_to != bs[i].listen_to);
        assert(bs[k].listen_to != c ==> true);
        if bs[k].listen_to == c {
            assert(bs[k].listen_to.address == c.address);
        }
    }
    lemma_find_bridge_no_match_prefix(bs, c, 0, i);
}

/// No bridge listens on `a`, and no bridge connects to `a` on port 80; a
/// freshly allocated listen address must satisfy this.
pub open spec fn fresh_for(bs: Seq<Bridge>, a: Ipv4) -> bool {
    forall|i: int|
        0 <= i < bs.len() ==> (#[trigger] bs[i]).listen_to.address != a && bs[i].connect_to != (
        Connection { address: a, port: 80 })
}

/// The table's invariant: every rule listens on port 80, listen addresses
/// are never shared, no rule's connect endpoint is another rule's listen
/// endpoint, and no two rules share a connect endpoint.
pub open spec fn bridges_inv(bs: Seq<Bridge>) -> bool {
    (forall|i: int| 0 <= i < bs.len() ==> (#[trigger] bs[i]).listen_to.port == 80) && (forall|
        i: int,
        j: int,
    |
        #![trigger bs[i], bs[j]]
        0 <= i < bs.len() && 0 <= j < bs.len() && i != j ==> bs[i].listen_to.address
            != bs[j].listen_to.address && bs[i].connect_to != bs[j].listen_to && bs[i].connect_to
            != bs[j].connect_to)
}

pub proof fn lemma_inv_remove(bs: Seq<Bridge>, i: int)
    requires
        bridges_inv(bs),
        0 <= i < bs.len(),
    ensures
        bridges_inv(bs.remove(i)),
{
    let nbs = bs.remove(i);
    assert forall|k: int| 0 <= k < nbs.len() implies (#[trigger] nbs[k]).listen_to.port == 80 by {
        if k < i {
            assert(nbs[k] == bs[k]);
        } else {
            assert(nbs[k] == bs[k + 1]);
        }
    }
    assert forall|k: int, m: int|
        #![trigger nbs[k], nbs[m]]
        0 <= k < nbs.len() && 0 <= m < nbs.len() && k != m implies nbs[k].listen_to.address
        != nbs[m].listen_to.address && nbs[k].connect_to != nbs[m].listen_to && nbs[k].connect_to
        != nbs[m].connect_to by {
        let k0 = if k < i {
            k
        } else {
            k + 1
        };
        let m0 = if m < i {
            m
        } else {
            m + 1
        };
        assert(nbs[k] == bs[k0]);
        assert(nbs[m] == bs[m0]);
    }
}

pub proof fn lemma_inv_push(bs: Seq<Bridge>, nb: Bridge)
    requires
        bridges_inv(bs),
        nb.listen_to.port == 80,
        nb.listen_to == (Connection { address: nb.listen_to.address, port: 80 }),
        fresh_for(bs, nb.listen_to.address),
        forall|k: int| 0 <= k < bs.len() ==> !bridge_matches(#[trigger] bs[k], nb.connect_to),
    ensures
        bridges_inv(bs.push(nb)),
{
    let nbs = bs.push(nb);
    assert forall|k: int| 0 <= k < nbs.len() implies (#[trigger] nbs[k]).listen_to.port == 80 by {
        if k < bs.len() {
            assert(nbs[k] == bs[k]);
        } else {
            assert(nbs[k] == nb);
        }
    }
    assert forall|k: int, m: int|
        #![trigger nbs[k], nbs[m]]
        0 <= k < nbs.len() && 0 <= m < nbs.len() && k != m implies nbs[k].listen_to.address
        != nbs[m].listen_to.address && nbs[k].connect_to != nbs[m].listen_to && nbs[k].connect_to
        != nbs[m].connect_to by {
        if k < bs.len() && m < bs.len() {
            assert(nbs[k] == bs[k]);
            assert(nbs[m] == bs[m]);
        } else if k < bs.len() {
            assert(nbs[k] == bs[k]);
            assert(nbs[m] == nb);
        } else {
            assert(nbs[k] == nb);
            assert(nbs[m] == bs[m]);
        }
    }
}

/// How one line of the list output reads: ignored (whitespace only),
/// malformed, or one rule.
pub enum BridgeLine {
    Skip,
    Bad,
    One(Bridge),
}

/// One data line of the list output: four whitespace-separated fields,
/// listen address, listen port, connect address, connect port. A line of
/// whitespace alone is ignored; anything else malformed is a load failure.
pub open spec fn parse_bridge_line(line: Seq<char>) -> BridgeLine {
    let t0s = skip_ws(line, 0);
    if t0s == line.len() {
        BridgeLine::Skip
    } else {
        let t0e = token_end(line, t0s);
        let t1s = skip_ws(line, t0e);
        let t1e = token_end(line, t1s);
        let t2s = skip_ws(line, t1e);
        let t2e = token_end(line, t2s);
        let t3s = skip_ws(line, t2e);
        let t3e = token_end(line, t3s);
        if t1s == line.len() || t2s == line.len() || t3s == line.len() {
            BridgeLine::Bad
        } else {
            match (
                ipv4_of_text(line.subrange(t0s, t0e)),
                port_of_text(line.subrange(t1s, t1e)),
                ipv4_of_text(line.subrange(t2s, t2e)),
                port_of_text(line.subrange(t3s, t3e)),
            ) {
                (Some(la), Some(lp), Some(ca), Some(cp)) => BridgeLine::One(
                    Bridge {
                        listen_to: Connection { address: la, port: lp },
                        connect_to: Connection { address: ca, port: cp },
                    },
                ),
                _ => BridgeLine::Bad,
            }
        }
    }
}

/// The rules the lines from index `i` on denote; `None` when some line is
/// malformed.
pub open spec fn bridges_of_lines(ls: Seq<Seq<char>>, i: int) -> Option<Seq<Bridge>>
    decreases ls.len() - i,
{
    if i < 0 || i >= ls.len() {
        Some(Seq::empty())
    } else {
        match parse_bridge_line(ls[i]) {
            BridgeLine::Bad => None,
            BridgeLine::Skip => bridges_of_lines(ls, i + 1),
            BridgeLine::One(b) => match bridges_of_lines(ls, i + 1) {
                None => None,
                Some(rest) => Some(seq![b] + rest),
            },
        }
    }
}

/// The header's separator: a line opening with a dash.
pub open spec fn dash_line(l: Seq<char>) -> bool {
    l.len() > 0 && l[0] == '-'
}

/// Index of the first separator line at or after `i`, or `ls.len()`.
pub open spec fn find_dash(ls: Seq<Seq<char>>, i: int) -> int
    decreases ls.len() - i,
{
    if i < 0 || i >= ls.len() {
        ls.len() as int
    } else if dash_line(ls[i]) {
        i
    } else {
        find_dash(ls, i + 1)
    }
}

/// The table the list output denotes: everything up to and including the
/// separator line is header; without a separator there are no rules; a
/// malformed data line makes the whole load fail.
pub open spec fn bridges_of_text(t: Seq<char>) -> Option<Seq<Bridge>> {
    let ls = lines_from(t, 0);
    let d = find_dash(ls, 0);
    if d == ls.len() {
        Some(Seq::empty())
    } else {
        bridges_of_lines(ls, d + 1)
    }
}

/// Relies on rand::random: draws a value of a type that rand's standard
/// distribution covers. Nothing is promised of the value.
pub assume_specification<T>[ rand::random::<T> ]() -> (r: T)
    where
        rand::distributions::Standard: rand::distributions::Distribution<T>,
;

/// Three random octets.
fn gen_octets() -> (u8, u8, u8) {
    let range = rand::random::<u32>();
    assert(range & 0xFF < 256) by (bit_vector);
    assert((range >> 8) & 0xFF < 256) by (bit_vector);
    assert((range >> 16) & 0xFF < 256) by (bit_vector);
    let addr_0 = range & 0xFF;
    let addr_1 = (range >> 8) & 0xFF;
    let addr_2 = (range >> 16) & 0xFF;
    (addr_0 as u8, addr_1 as u8, addr_2 as u8)
}

/// How many draws the allocator makes before giving up.
pub const MAX_ALLOCATION_ATTEMPTS: u32 = 1024;

enum ParsedBridgeLine {
    Skip,
    Bad,
    One(Bridge),
}

/// Reads one line of the list output, as `parse_bridge_line` describes.
fn parse_table_line(line: &str) -> (r: ParsedBridgeLine)
    ensures
        match r {
            ParsedBridgeLine::Skip => parse_bridge_line(line@) is Skip,
            ParsedBridgeLine::Bad => parse_bridge_line(line@) is Bad,
            ParsedBridgeLine::One(b) => parse_bridge_line(line@) == BridgeLine::One(b),
        },
{
    let n = line.unicode_len();
    let t0s = skip_ws_from(line, 0);
    if t0s == n {
        return ParsedBridgeLine::Skip;
    }
    proof {
        lemma_skip_ws(line@, 0);
    }
    let t0e = token_end_from(line, t0s);
    proof {
        lemma_token_end(line@, t0s as int);
    }
    let t1s = skip_ws_from(line, t0e);
    proof {
        lemma_skip_ws(line@, t0e as int);
    }
    let t1e = token_end_from(line, t1s);
    proof {
        lemma_token_end(line@, t1s as int);
    }
    let t2s = skip_ws_from(line, t1e);
    proof {
        lemma_skip_ws(line@, t1e as int);
    }
    let t2e = token_end_from(line, t2s);
    proof {
        lemma_token_end(line@, t2s as int);
    }
    let t3s = skip_ws_from(line, t2e);
    proof {
        lemma_skip_ws(line@, t2e as int);
    }
    let t3e = token_end_from(line, t3s);
    proof {
        lemma_token_end(line@, t3s as int);
    }
    if t1s == n || t2s == n || t3s == n {
        return ParsedBridgeLine::Bad;
    }
    let f0 = parse_ipv4(line.substring_char(t0s, t0e));
    let f1 = parse_port(line.substring_char(t1s, t1e));
    let f2 = parse_ipv4(line.substring_char(t2s, t2e));
    let f3 = parse_port(line.substring_char(t3s, t3e));
    match (f0, f1, f2, f3) {
        (Some(la), Some(lp), Some(ca), Some(cp)) => ParsedBridgeLine::One(
            Bridge {
                listen_to: Connection { address: la, port: lp },
                connect_to: Connection { address: ca, port: cp },
            },
        ),
        _ => ParsedBridgeLine::Bad,
    }
}

/// The in-memory forwarding table.
#[derive(Debug)]
pub struct NetSH {
    pub bridges: Vec<Bridge>,
}

impl Default for NetSH {
    fn default() -> (r: Self)
        ensures
            r.bridges@ == Seq::<Bridge>::empty(),
    {
        NetSH { bridges: Vec::new() }
    }
}

impl NetSH {
    pub open spec fn inv(&self) -> bool {
        bridges_inv(self.bridges@)
    }

    /// Loads a table from the list command's output text.
    pub fn new(output: &str) -> (r: Result<NetSH, HostingError>)
        ensures
            match r {
                Ok(n) => bridges_of_text(output@) == Some(n.bridges@),
                Err(e) => e == HostingError::Parse && bridges_of_text(output@) is None,
            },
    {
        let lines = split_lines(output);
        let ghost ls = lines_from(output@, 0);
        let mut d: usize = 0;
        loop
            invariant
                0 <= d <= lines.len(),
                ls == lines_from(output@, 0),
                lines@.map_values(|l: String| l@) == ls,
                find_dash(ls, 0) == find_dash(ls, d as int),
            ensures
                d as int == find_dash(ls, 0),
            decreases lines.len() - d,
        {
            if d == lines.len() {
                break;
            }
            assert(ls[d as int] == lines@[d as int]@);
            let l = lines[d].as_str();
            if l.unicode_len() > 0 && l.get_char(0) == '-' {
                break;
            }
            d = d + 1;
        }
        if d == lines.len() {
            let n = NetSH { bridges: Vec::new() };
            assert(bridges_of_text(output@) == Some(n.bridges@));
            return Ok(n);
        }
        let mut bridges: Vec<Bridge> = Vec::new();
        let mut i: usize = d + 1;
        while i < lines.len()
            invariant
                d + 1 <= i <= lines.len(),
                ls == lines_from(output@, 0),
                lines@.map_values(|l: String| l@) == ls,
                (d as int) < ls.len(),
                d as int == find_dash(ls, 0),
                bridges_of_lines(ls, d + 1) == (match bridges_of_lines(ls, i as int) {
                    None => None::<Seq<Bridge>>,
                    Some(rest) => Some(bridges@ + rest),
                }),
            decreases lines.len() - i,
        {
            let ghost prev = bridges@;
            assert(ls[i as int] == lines@[i as int]@);
            match parse_table_line(lines[i].as_str()) {
                ParsedBridgeLine::Skip => {},
                ParsedBridgeLine::Bad => {
                    proof {
                        assert(bridges_of_lines(ls, i as int) == None::<Seq<Bridge>>);
                        assert(bridges_of_text(output@) is None);
                    }
                    return Err(HostingError::Parse);
                },
                ParsedBridgeLine::One(b) => {
                    bridges.push(b);
                    proof {
                        if let Some(rest) = bridges_of_lines(ls, i + 1) {
                            assert(prev + (seq![b] + rest) =~= prev.push(b) + rest);
                        }
                    }
                },
            }
            i = i + 1;
        }
        let n = NetSH { bridges };
        proof {
            assert(n.bridges@ + Seq::<Bridge>::empty() =~= n.bridges@);
        }
        Ok(n)
    }

    /// Decides the table invariant, so a caller that loaded a table from
    /// outside can test it before relying on operations that require it.
    pub fn check_inv(&self) -> (b: bool)
        ensures
            b == self.inv(),
    {
        let n = self.bridges.len();
        let mut i: usize = 0;
        while i < n
            invariant
                0 <= i <= n,
                n == self.bridges@.len(),
                forall|k: int| 0 <= k < i ==> (#[trigger] self.bridges@[k]).listen_to.port == 80,
                forall|k: int, m: int|
                    #![trigger self.bridges@[k], self.bridges@[m]]
                    0 <= k < i && 0 <= m < n && k != m ==> self.bridges@[k].listen_to.address
                        != self.bridges@[m].listen_to.address && self.bridges@[k].connect_to
                        != self.bridges@[m].listen_to && self.bridges@[k].connect_to
                        != self.bridges@[m].connect_to,
            decreases n - i,
        {
            let bi = self.bridges[i];
            if bi.listen_to.port != 80 {
                assert(!self.inv());
                return false;
            }
            let mut j: usize = 0;
            while j < n
                invariant
                    0 <= j <= n,
                    i < n,
                    n == self.bridges@.len(),
                    bi == self.bridges@[i as int],
                    forall|m: int|
                        0 <= m < j && m != i ==> bi.listen_to.address != (
                        #[trigger] self.bridges@[m]).listen_to.address && bi.connect_to
                            != self.bridges@[m].listen_to && bi.connect_to
                            != self.bridges@[m].connect_to,
                decreases n - j,
            {
                if j != i {
                    let bj = self.bridges[j];
                    if bi.listen_to.address == bj.listen_to.address || bi.connect_to
                        == bj.listen_to || bi.connect_to == bj.connect_to {
                        assert(!self.inv());
                        return false;
                    }
                }
                j = j + 1;
            }
            i = i + 1;
        }
        true
    }

    fn find_index(&self, c: Connection) -> (r: usize)
        ensures
            r == find_bridge_from(self.bridges@, c, 0),
    {
        let n = self.bridges.len();
        let mut i: usize = 0;
        while i < n
            invariant
                0 <= i <= n,
                n == self.bridges@.len(),
                find_bridge_from(self.bridges@, c, 0) == find_bridge_from(
                    self.bridges@,
                    c,
                    i as int,
                ),
            decreases n - i,
        {
            let b = self.bridges[i];
            if b.listen_to == c || b.connect_to == c {
                return i;
            }
            i = i + 1;
        }
        n
    }

    /// Whether some bridge serves the endpoint on either side.
    pub fn contains(&self, value: Connection) -> (r: bool)
        ensures
            r == (find_bridge_from(self.bridges@, value, 0) < self.bridges@.len()),
    {
        self.find_index(value) < self.bridges.len()
    }

    /// First bridge serving the endpoint on either side.
    pub fn get_by_connection(&self, value: Connection) -> (r: Option<&Bridge>)
        ensures
            match r {
                Some(b) => find_bridge_from(self.bridges@, value, 0) < self.bridges@.len() && *b
                    == self.bridges@[find_bridge_from(self.bridges@, value, 0)],
                None => find_bridge_from(self.bridges@, value, 0) == self.bridges@.len(),
            },
    {
        let i = self.find_index(value);
        proof {
            lemma_find_bridge_from(self.bridges@, value, 0);
        }
        if i < self.bridges.len() {
            Some(&self.bridges[i])
        } else {
            None
        }
    }

    /// Drops the first bridge serving the endpoint from the table and
    /// returns it, or nothing when none serves it.
    pub fn delete(&mut self, connect_to: Connection) -> (r: Option<Bridge>)
        ensures
            ({
                let i = find_bridge_from(old(self).bridges@, connect_to, 0);
                match r {
                    Some(b) => i < old(self).bridges@.len() && b == old(self).bridges@[i]
                        && final(self).bridges@ == old(self).bridges@.remove(i),
                    None => i == old(self).bridges@.len() && final(self).bridges@ == old(
                        self,
                    ).bridges@,
                }
            }),
            old(self).inv() ==> final(self).inv(),
    {
        let i = self.find_index(connect_to);
        proof {
            lemma_find_bridge_from(self.bridges@, connect_to, 0);
        }
        if i < self.bridges.len() {
            let b = self.bridges.remove(i);
            proof {
                if bridges_inv(old(self).bridges@) {
                    lemma_inv_remove(old(self).bridges@, i as int);
                }
            }
            Some(b)
        } else {
            None
        }
    }

    /// The address allocator: draws random loopback addresses, skipping the
    /// block conventional localhost use occupies and every address some
    /// current bridge uses, and gives up after `max_attempts` draws.
    pub fn allocate(&self, max_attempts: u32) -> (r: Result<Ipv4, HostingError>)
        ensures
            match r {
                Ok(a) => a.o0 == 127 && !(a.o1 == 0 && a.o2 == 0) && fresh_for(self.bridges@, a),
                Err(e) => e == HostingError::AddressSpaceExhausted,
            },
    {
        let mut attempt: u32 = 0;
        while attempt < max_attempts
            invariant
                attempt <= max_attempts,
            decreases max_attempts - attempt,
        {
            let (o1, o2, o3) = gen_octets();
            if !(o1 == 0 && o2 == 0) {
                let candidate = Ipv4 { o0: 127, o1, o2, o3 };
                if !self.endpoint_address_used(candidate) {
                    return Ok(candidate);
                }
            }
            attempt = attempt + 1;
        }
        Err(HostingError::AddressSpaceExhausted)
    }

    fn endpoint_address_used(&self, a: Ipv4) -> (r: bool)
        ensures
            r == !fresh_for(self.bridges@, a),
    {
        let n = self.bridges.len();
        let mut i: usize = 0;
        while i < n
            invariant
                0 <= i <= n,
                n == self.bridges@.len(),
                forall|k: int|
                    0 <= k < i ==> (#[trigger] self.bridges@[k]).listen_to.address != a
                        && self.bridges@[k].connect_to != (Connection { address: a, port: 80 }),
            decreases n - i,
        {
            let b = self.bridges[i];
            if b.listen_to.address == a || b.connect_to == (Connection { address: a, port: 80 }) {
                return true;
            }
            i = i + 1;
        }
        false
    }

    /// Returns the bridge serving `connect_to`, creating one with a freshly
    /// allocated listen address when none exists; the flag says whether the
    /// bridge is new.
    pub fn add_or_retreive(&mut self, connect_to: Connection) -> (r: Result<
        (Bridge, bool),
        HostingError,
    >)
        requires
            old(self).inv(),
        ensures
            final(self).inv(),
            add_or_retreive_post(old(self).bridges@, final(self).bridges@, connect_to, r),
    {
        let i = self.find_index(connect_to);
        if i < self.bridges.len() {
            let b = self.bridges[i];
            return Ok((b, false));
        }
        proof {
            lemma_find_bridge_from(self.bridges@, connect_to, 0);
        }
        match self.allocate(MAX_ALLOCATION_ATTEMPTS) {
            Err(e) => Err(e),
            Ok(a) => {
                let nb = Bridge {
                    listen_to: Connection { address: a, port: 80 },
                    connect_to,
                };
                proof {
                    lemma_inv_push(self.bridges@, nb);
                }
                self.bridges.push(nb);
                Ok((nb, true))
            },
        }
    }
}

/// What `NetSH::add_or_retreive` does: an existing bridge is returned and
/// nothing changes; otherwise either a bridge with a fresh listen address is
/// appended, or allocation gives up and nothing changes.
pub open spec fn add_or_retreive_post(
    pre: Seq<Bridge>,
    post: Seq<Bridge>,
    c: Connection,
    r: Result<(Bridge, bool), HostingError>,
) -> bool {
    match r {
        Ok(p) => {
            let b = p.0;
            let created = p.1;
            if created {
                find_bridge_from(pre, c, 0) == pre.len() && b.listen_to.port == 80 && b.connect_to
                    == c && fresh_for(pre, b.listen_to.address) && b.listen_to.address.o0 == 127
                    && !(b.listen_to.address.o1 == 0 && b.listen_to.address.o2 == 0) && post
                    == pre.push(b)
            } else {
                find_bridge_from(pre, c, 0) < pre.len() && b == pre[find_bridge_from(pre, c, 0)]
                    && post == pre
            }
        },
        Err(e) => e == HostingError::AddressSpaceExhausted && find_bridge_from(pre, c, 0)
            == pre.len() && post == pre,
    }
}

} // verus!
