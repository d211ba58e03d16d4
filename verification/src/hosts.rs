//! The host registry: an in-memory view of the hostname mapping file.
//!
//! The library holds the parsed entries and mutates them; mirroring a change
//! to the external file is the embedding program's job. A registry whose
//! `uses_host_file` flag is set models the external file, and its
//! `write_fault` flag lets a caller stand in for that file refusing a write,
//! which is what drives the compensation path of an add operation.

use vstd::prelude::*;
use vstd::string::*;

use crate::text::{
    find_from, has_sub, ipv4_of_text, lines_from, parse_ipv4, skip_ws, split_lines,
    str_contains_sub, str_eq, token_end, find_char_from, lemma_find_from, lemma_skip_ws,
    lemma_token_end, skip_ws_from, token_end_from,
};
use crate::{HostingError, Ipv4};

verus! {

/// The mathematical form of one registry entry.
pub struct HostRec {
    pub address: Ipv4,
    pub host: Seq<char>,
}

/// One line of the mapping file: an address and the host name that resolves
/// to it.
#[derive(Debug, Clone)]
pub struct HostItem {
    pub address: Ipv4,
    pub host: String,
}

impl View for HostItem {
    type V = HostRec;

    open spec fn view(&self) -> HostRec {
        HostRec { address: self.address, host: self.host@ }
    }
}

impl HostItem {
    /// A copy whose view equals this entry's view.
    pub fn duplicate(&self) -> (r: HostItem)
        ensures
            r@ == self@,
    {
        HostItem { address: self.address, host: self.host.clone() }
    }
}

/// Which entries a deletion selects: all entries with one address, or all
/// entries whose host name contains a substring.
#[derive(Debug, Clone, Copy)]
pub enum DeletionType<'a> {
    Address(Ipv4),
    Host(&'a str),
}

/// The mathematical form of a deletion selector.
pub enum Selector {
    Address(Ipv4),
    Host(Seq<char>),
}

impl<'a> View for DeletionType<'a> {
    type V = Selector;

    open spec fn view(&self) -> Selector {
        match self {
            DeletionType::Address(a) => Selector::Address(*a),
            DeletionType::Host(s) => Selector::Host(s@),
        }
    }
}

pub open spec fn sel_matches(sel: Selector, r: HostRec) -> bool {
    match sel {
        Selector::Address(a) => r.address == a,
        Selector::Host(h) => has_sub(r.host, h),
    }
}

/// The entries that survive a deletion, their order kept.
pub open spec fn remove_matching(recs: Seq<HostRec>, sel: Selector) -> Seq<HostRec>
    decreases recs.len(),
{
    if recs.len() == 0 {
        Seq::empty()
    } else {
        let rest = remove_matching(recs.drop_last(), sel);
        if sel_matches(sel, recs.last()) {
            rest
        } else {
            rest.push(recs.last())
        }
    }
}

/// The entries a deletion selects, in order of appearance.
pub open spec fn matching(recs: Seq<HostRec>, sel: Selector) -> Seq<HostRec>
    decreases recs.len(),
{
    if recs.len() == 0 {
        Seq::empty()
    } else {
        let rest = matching(recs.drop_last(), sel);
        if sel_matches(sel, recs.last()) {
            rest.push(recs.last())
        } else {
            rest
        }
    }
}

/// How many entries carry the given address.
pub open spec fn count_addr(recs: Seq<HostRec>, a: Ipv4) -> nat
    decreases recs.len(),
{
    if recs.len() == 0 {
        0nat
    } else {
        count_addr(recs.drop_last(), a) + (if recs.last().address == a {
            1nat
        } else {
            0nat
        })
    }
}

/// Every entry a deletion selects satisfies the selector.
pub proof fn lemma_matching_matches(recs: Seq<HostRec>, sel: Selector)
    ensures
        forall|t: int|
            0 <= t < matching(recs, sel).len() ==> sel_matches(sel, #[trigger] matching(recs, sel)[t]),
    decreases recs.len(),
{
    if recs.len() > 0 {
        lemma_matching_matches(recs.drop_last(), sel);
        let rest = matching(recs.drop_last(), sel);
        assert forall|t: int|
            0 <= t < matching(recs, sel).len() implies sel_matches(
            sel,
            #[trigger] matching(recs, sel)[t],
        ) by {
            if sel_matches(sel, recs.last()) {
                if t < rest.len() {
                    assert(matching(recs, sel)[t] == rest[t]);
                } else {
                    assert(matching(recs, sel)[t] == recs.last());
                }
            } else {
                assert(matching(recs, sel)[t] == rest[t]);
            }
        }
    }
}

/// A deletion by address selects exactly as many entries as carry the
/// address.
pub proof fn lemma_matching_address_count(recs: Seq<HostRec>, a: Ipv4)
    ensures
        matching(recs, Selector::Address(a)).len() == count_addr(recs, a),
    decreases recs.len(),
{
    if recs.len() > 0 {
        lemma_matching_address_count(recs.drop_last(), a);
    }
}

/// After a deletion by address, no entry carries the address any more.
pub proof fn lemma_remove_matching_address_count(recs: Seq<HostRec>, a: Ipv4)
    ensures
        count_addr(remove_matching(recs, Selector::Address(a)), a) == 0,
    decreases recs.len(),
{
    if recs.len() > 0 {
        lemma_remove_matching_address_count(recs.drop_last(), a);
        let rest = remove_matching(recs.drop_last(), Selector::Address(a));
        if !sel_matches(Selector::Address(a), recs.last()) {
            assert(rest.push(recs.last()).drop_last() =~= rest);
        }
    }
}

/// Index of the first entry at or after `i` whose host name equals `h`
/// exactly, or `recs.len()` if none does.
pub open spec fn find_host_from(recs: Seq<HostRec>, h: Seq<char>, i: int) -> int
    decreases recs.len() - i,
{
    if i < 0 || i >= recs.len() {
        recs.len() as int
    } else if recs[i].host == h {
        i
    } else {
        find_host_from(recs, h, i + 1)
    }
}

pub open spec fn has_host(recs: Seq<HostRec>, h: Seq<char>) -> bool {
    find_host_from(recs, h, 0) < recs.len()
}

pub proof fn lemma_find_host_from(recs: Seq<HostRec>, h: Seq<char>, i: int)
    requires
        0 <= i <= recs.len(),
    ensures
        i <= find_host_from(recs, h, i) <= recs.len(),
        find_host_from(recs, h, i) < recs.len() ==> recs[find_host_from(recs, h, i)].host == h,
        forall|k: int| i <= k < find_host_from(recs, h, i) ==> recs[k].host != h,
    decreases recs.len() - i,
{
    if i < recs.len() && recs[i].host != h {
        lemma_find_host_from(recs, h, i + 1);
    }
}

/// How one line of the mapping file reads: ignored, malformed, or one entry.
pub enum HostLine {
    Skip,
    Bad,
    Entry(HostRec),
}

/// One mapping-file line: blank lines and lines opening with `#` are
/// ignored; otherwise the first whitespace-separated token is the address
/// and the second is the host name, cut at a `#` if one is embedded. A line
/// with fewer than two tokens is ignored; a first token that is no IPv4
/// address is malformed.
pub open spec fn parse_host_line(line: Seq<char>) -> HostLine {
    if line.len() == 0 || line[0] == '#' {
        HostLine::Skip
    } else {
        let a0 = skip_ws(line, 0);
        if a0 == line.len() {
            HostLine::Skip
        } else {
            let a1 = token_end(line, a0);
            let h0 = skip_ws(line, a1);
            if h0 == line.len() {
                HostLine::Skip
            } else {
                let h1 = token_end(line, h0);
                match ipv4_of_text(line.subrange(a0, a1)) {
                    Option::None => HostLine::Bad,
                    Option::Some(ip) => {
                        let raw = line.subrange(h0, h1);
                        let hend = find_from(raw, 0, '#');
                        HostLine::Entry(HostRec { address: ip, host: raw.subrange(0, hend) })
                    },
                }
            }
        }
    }
}

/// The entries of the lines from index `i` on; `None` when some line is
/// malformed.
pub open spec fn host_recs_of_lines(ls: Seq<Seq<char>>, i: int) -> Option<Seq<HostRec>>
    decreases ls.len() - i,
{
    if i < 0 || i >= ls.len() {
        Some(Seq::empty())
    } else {
        match parse_host_line(ls[i]) {
            HostLine::Bad => None,
            HostLine::Skip => host_recs_of_lines(ls, i + 1),
            HostLine::Entry(r) => match host_recs_of_lines(ls, i + 1) {
                None => None,
                Some(rest) => Some(seq![r] + rest),
            },
        }
    }
}

/// The registry a mapping file's text denotes, or `None` when loading it
/// must fail.
pub open spec fn hosts_of_text(t: Seq<char>) -> Option<Seq<HostRec>> {
    host_recs_of_lines(lines_from(t, 0), 0)
}

enum ParsedLine {
    Skip,
    Bad,
    Entry(HostItem),
}

/// The in-memory registry.
#[derive(Debug)]
pub struct HostFile {
    /// Whether changes must be mirrored to the external mapping file.
    pub uses_host_file: bool,
    /// Stands in for the external file refusing a write: while it is set and
    /// the file is in use, every mutation reports an I/O failure and changes
    /// nothing.
    pub write_fault: bool,
    pub items: Vec<HostItem>,
}

impl Default for HostFile {
    fn default() -> (r: Self)
        ensures
            !r.uses_host_file,
            !r.write_fault,
            r.recs() == Seq::<HostRec>::empty(),
    {
        let r = HostFile { uses_host_file: false, write_fault: false, items: Vec::new() };
        proof {
            assert(r.recs() =~= Seq::<HostRec>::empty());
        }
        r
    }
}

impl HostFile {
    /// The registry's mathematical contents.
    pub open spec fn recs(&self) -> Seq<HostRec> {
        self.items@.map_values(|it: HostItem| it@)
    }

    /// Whether the next mirrored write fails.
    pub open spec fn fault(&self) -> bool {
        self.uses_host_file && self.write_fault
    }

    /// Loads a registry from the mapping file's text.
    pub fn read(contents: &str) -> (r: Result<HostFile, HostingError>)
        ensures
            match r {
                Ok(hf) => hosts_of_text(contents@) == Some(hf.recs()) && hf.uses_host_file
                    && !hf.write_fault,
                Err(e) => e == HostingError::Parse && hosts_of_text(contents@) is None,
            },
    {
        let lines = split_lines(contents);
        let ghost ls = lines_from(contents@, 0);
        let mut items: Vec<HostItem> = Vec::new();
        let mut i: usize = 0;
        while i < lines.len()
            invariant
                0 <= i <= lines.len(),
                ls == lines_from(contents@, 0),
                lines@.map_values(|l: String| l@) == ls,
                host_recs_of_lines(ls, 0) == (match host_recs_of_lines(ls, i as int) {
                    None => None::<Seq<HostRec>>,
                    Some(rest) => Some(items@.map_values(|it: HostItem| it@) + rest),
                }),
            decreases lines.len() - i,
        {
            let ghost prev = items@.map_values(|it: HostItem| it@);
            assert(ls[i as int] == lines@[i as int]@);
            match parse_line(lines[i].as_str()) {
                ParsedLine::Skip => {},
                ParsedLine::Bad => {
                    proof {
                        assert(parse_host_line(ls[i as int]) is Bad);
                        assert(host_recs_of_lines(ls, i as int) == None::<Seq<HostRec>>);
                        assert(hosts_of_text(contents@) is None);
                    }
                    return Err(HostingError::Parse);
                },
                ParsedLine::Entry(it) => {
                    items.push(it);
                    proof {
                        assert(items@.map_values(|x: HostItem| x@) =~= prev.push(it@));
                        if let Some(rest) = host_recs_of_lines(ls, i + 1) {
                            assert(prev + (seq![it@] + rest) =~= prev.push(it@) + rest);
                        }
                    }
                },
            }
            i = i + 1;
        }
        let hf = HostFile { uses_host_file: true, write_fault: false, items };
        proof {
            assert(hf.recs() + Seq::<HostRec>::empty() =~= hf.recs());
        }
        Ok(hf)
    }

    /// First entry whose host name equals `value` exactly.
    pub fn find_item_by_host(&self, value: &str) -> (r: Option<&HostItem>)
        ensures
            match r {
                Some(item) => find_host_from(self.recs(), value@, 0) < self.recs().len() && item@
                    == self.recs()[find_host_from(self.recs(), value@, 0)],
                None => !has_host(self.recs(), value@),
            },
    {
        let n = self.items.len();
        let mut i: usize = 0;
        while i < n
            invariant
                0 <= i <= n,
                n == self.items@.len(),
                find_host_from(self.recs(), value@, 0) == find_host_from(
                    self.recs(),
                    value@,
                    i as int,
                ),
            decreases n - i,
        {
            if str_eq(self.items[i].host.as_str(), value) {
                return Some(&self.items[i]);
            }
            i = i + 1;
        }
        None
    }

    /// Every entry carrying the given address, in order, as copies.
    pub fn find_by_address(&self, value: Ipv4) -> (r: Vec<HostItem>)
        ensures
            r@.map_values(|it: HostItem| it@) == matching(self.recs(), Selector::Address(value)),
    {
        let n = self.items.len();
        let mut out: Vec<HostItem> = Vec::new();
        let mut i: usize = 0;
        while i < n
            invariant
                0 <= i <= n,
                n == self.items@.len(),
                out@.map_values(|it: HostItem| it@) == matching(
                    self.recs().subrange(0, i as int),
                    Selector::Address(value),
                ),
            decreases n - i,
        {
            let ghost prevsub = self.recs().subrange(0, i as int);
            let ghost prev = out@.map_values(|it: HostItem| it@);
            proof {
                assert(self.recs().subrange(0, i + 1).drop_last() =~= prevsub);
                assert(self.recs().subrange(0, i + 1).last() == self.recs()[i as int]);
            }
            if self.items[i].address == value {
                let d = self.items[i].duplicate();
                out.push(d);
                proof {
                    assert(out@.map_values(|it: HostItem| it@) =~= prev.push(d@));
                }
            }
            i = i + 1;
        }
        proof {
            assert(self.recs().subrange(0, n as int) =~= self.recs());
        }
        out
    }

    /// How many entries carry the given address.
    pub fn count_addresses(&self, value: Ipv4) -> (r: usize)
        ensures
            r == count_addr(self.recs(), value),
    {
        let n = self.items.len();
        let mut count: usize = 0;
        let mut i: usize = 0;
        while i < n
            invariant
                0 <= i <= n,
                n == self.items@.len(),
                count <= i,
                count == count_addr(self.recs().subrange(0, i as int), value),
            decreases n - i,
        {
            proof {
                assert(self.recs().subrange(0, i + 1).drop_last() =~= self.recs().subrange(
                    0,
                    i as int,
                ));
                assert(self.recs().subrange(0, i + 1).last() == self.recs()[i as int]);
            }
            if self.items[i].address == value {
                count = count + 1;
            }
            i = i + 1;
        }
        proof {
            assert(self.recs().subrange(0, n as int) =~= self.recs());
        }
        count
    }

    /// Appends one entry. While the external file is in use and faulted the
    /// write fails and nothing changes.
    pub fn add(&mut self, address: Ipv4, host: String) -> (r: Result<(), HostingError>)
        ensures
            final(self).uses_host_file == old(self).uses_host_file,
            final(self).write_fault == old(self).write_fault,
            old(self).fault() ==> r == Err::<(), HostingError>(HostingError::Io) && final(self).recs()
                == old(self).recs(),
            !old(self).fault() ==> r == Ok::<(), HostingError>(()) && final(self).recs() == old(
                self,
            ).recs().push(HostRec { address, host: host@ }),
    {
        if self.uses_host_file && self.write_fault {
            return Err(HostingError::Io);
        }
        let ghost prev = self.recs();
        let ghost h = host@;
        self.items.push(HostItem { address, host });
        proof {
            assert(self.recs() =~= prev.push(HostRec { address, host: h }));
        }
        Ok(())
    }

    /// Removes every entry the selector matches and returns the removed
    /// entries, most recent first. While the external file is in use and
    /// faulted the rewrite fails and nothing changes.
    pub fn delete(&mut self, value: DeletionType) -> (r: Result<Vec<HostItem>, HostingError>)
        ensures
            final(self).uses_host_file == old(self).uses_host_file,
            final(self).write_fault == old(self).write_fault,
            match r {
                Err(e) => e == HostingError::Io && old(self).fault() && final(self).recs() == old(
                    self,
                ).recs(),
                Ok(removed) => {
                    let sel = matching(old(self).recs(), value@);
                    !old(self).fault() && final(self).recs() == remove_matching(
                        old(self).recs(),
                        value@,
                    ) && removed@.len() == sel.len() && (forall|k: int|
                        0 <= k < sel.len() ==> removed@[k]@ == sel[sel.len() - 1 - k])
                },
            },
    {
        if self.uses_host_file && self.write_fault {
            return Err(HostingError::Io);
        }
        let n = self.items.len();
        let mut kept: Vec<HostItem> = Vec::new();
        let mut picked: Vec<HostItem> = Vec::new();
        let mut i: usize = 0;
        while i < n
            invariant
                0 <= i <= n,
                n == self.items@.len(),
                kept@.map_values(|it: HostItem| it@) == remove_matching(
                    self.recs().subrange(0, i as int),
                    value@,
                ),
                picked@.map_values(|it: HostItem| it@) == matching(
                    self.recs().subrange(0, i as int),
                    value@,
                ),
            decreases n - i,
        {
            let ghost prevk = kept@.map_values(|it: HostItem| it@);
            let ghost prevp = picked@.map_values(|it: HostItem| it@);
            proof {
                assert(self.recs().subrange(0, i + 1).drop_last() =~= self.recs().subrange(
                    0,
                    i as int,
                ));
                assert(self.recs().subrange(0, i + 1).last() == self.recs()[i as int]);
            }
            let hit = match value {
                DeletionType::Address(a) => self.items[i].address == a,
                DeletionType::Host(v) => str_contains_sub(self.items[i].host.as_str(), v),
            };
            let d = self.items[i].duplicate();
            if hit {
                picked.push(d);
                proof {
                    assert(picked@.map_values(|it: HostItem| it@) =~= prevp.push(
                        self.recs()[i as int],
                    ));
                }
            } else {
                kept.push(d);
                proof {
                    assert(kept@.map_values(|it: HostItem| it@) =~= prevk.push(
                        self.recs()[i as int],
                    ));
                }
            }
            i = i + 1;
        }
        proof {
            assert(self.recs().subrange(0, n as int) =~= self.recs());
        }
        let ghost sel = matching(self.recs(), value@);
        self.items = kept;
        let mut removed: Vec<HostItem> = Vec::new();
        let mut j: usize = picked.len();
        while j > 0
            invariant
                0 <= j <= picked@.len(),
                picked@.map_values(|it: HostItem| it@) == sel,
                removed@.len() == picked@.len() - j,
                forall|k: int| 0 <= k < removed@.len() ==> removed@[k]@ == sel[sel.len() - 1 - k],
            decreases j,
        {
            j = j - 1;
            let d = picked[j].duplicate();
            removed.push(d);
        }
        Ok(removed)
    }
}

/// Lines joined with line feeds, without a trailing one.
pub open spec fn join_lines(ls: Seq<Seq<char>>) -> Seq<char>
    decreases ls.len(),
{
    if ls.len() == 0 {
        Seq::empty()
    } else if ls.len() == 1 {
        ls[0]
    } else {
        join_lines(ls.drop_last()) + seq!['\n'] + ls.last()
    }
}

/// The lines in which `needle` does not occur, in order.
pub open spec fn kept_lines(ls: Seq<Seq<char>>, needle: Seq<char>) -> Seq<Seq<char>>
    decreases ls.len(),
{
    if ls.len() == 0 {
        Seq::empty()
    } else {
        let rest = kept_lines(ls.drop_last(), needle);
        if has_sub(ls.last(), needle) {
            rest
        } else {
            rest.push(ls.last())
        }
    }
}

/// The text the mapping file keeps after a deletion mirrors it: every line
/// in which `needle` occurs is dropped, the rest joined with line feeds.
pub fn surviving_file_text(contents: &str, needle: &str) -> (r: String)
    ensures
        r@ == join_lines(kept_lines(lines_from(contents@, 0), needle@)),
{
    let ghost ls = lines_from(contents@, 0);
    let lines = split_lines(contents);
    let mut out = String::new();
    let mut first = true;
    let mut i: usize = 0;
    proof {
        reveal_strlit("\n");
        assert(ls.subrange(0, 0) =~= Seq::<Seq<char>>::empty());
    }
    while i < lines.len()
        invariant
            0 <= i <= lines.len(),
            ls == lines_from(contents@, 0),
            lines@.map_values(|l: String| l@) == ls,
            first <==> kept_lines(ls.subrange(0, i as int), needle@).len() == 0,
            out@ == join_lines(kept_lines(ls.subrange(0, i as int), needle@)),
        decreases lines.len() - i,
    {
        let ghost prevsub = ls.subrange(0, i as int);
        let ghost kept = kept_lines(prevsub, needle@);
        proof {
            reveal_strlit("\n");
            assert(ls.subrange(0, i + 1).drop_last() =~= prevsub);
            assert(ls.subrange(0, i + 1).last() == ls[i as int]);
            assert(ls[i as int] == lines@[i as int]@);
        }
        if !str_contains_sub(lines[i].as_str(), needle) {
            if !first {
                out.append("\n");
                proof {
                    assert("\n"@ =~= seq!['\n']);
                }
            }
            out.append(lines[i].as_str());
            first = false;
            proof {
                let now = kept_lines(ls.subrange(0, i + 1), needle@);
                assert(now == kept.push(ls[i as int]));
                if kept.len() == 0 {
                    assert(now.len() == 1);
                    assert(now[0] == ls[i as int]);
                    assert(out@ =~= join_lines(now));
                } else {
                    assert(now.drop_last() =~= kept);
                    assert(now.last() == ls[i as int]);
                    assert(out@ =~= join_lines(kept) + seq!['\n'] + ls[i as int]);
                }
            }
        }
        i = i + 1;
    }
    proof {
        assert(ls.subrange(0, lines@.len() as int) =~= ls);
    }
    out
}

/// Reads one line of the mapping file, as `parse_host_line` describes.
fn parse_line(line: &str) -> (r: ParsedLine)
    ensures
        match r {
            ParsedLine::Skip => parse_host_line(line@) is Skip,
            ParsedLine::Bad => parse_host_line(line@) is Bad,
            ParsedLine::Entry(it) => parse_host_line(line@) == HostLine::Entry(it@),
        },
{
    let n = line.unicode_len();
    if n == 0 {
        return ParsedLine::Skip;
    }
    if line.get_char(0) == '#' {
        return ParsedLine::Skip;
    }
    let a0 = skip_ws_from(line, 0);
    if a0 == n {
        return ParsedLine::Skip;
    }
    proof {
        lemma_skip_ws(line@, 0);
    }
    let a1 = token_end_from(line, a0);
    proof {
        lemma_token_end(line@, a0 as int);
    }
    let h0 = skip_ws_from(line, a1);
    proof {
        lemma_skip_ws(line@, a1 as int);
    }
    if h0 == n {
        return ParsedLine::Skip;
    }
    let h1 = token_end_from(line, h0);
    proof {
        lemma_token_end(line@, h0 as int);
    }
    let addr_text = line.substring_char(a0, a1);
    match parse_ipv4(addr_text) {
        None => ParsedLine::Bad,
        Some(ip) => {
            let raw = line.substring_char(h0, h1);
            let hend = find_char_from(raw, 0, '#');
            proof {
                lemma_find_from(raw@, 0, '#');
            }
            let host_text = raw.substring_char(0, hend);
            ParsedLine::Entry(HostItem { address: ip, host: String::from_str(host_text) })
        },
    }
}

} // verus!
