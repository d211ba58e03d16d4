//! Character-level parsing vocabulary: whitespace and digit classification,
//! bounded decimal numbers, dotted-quad IPv4 addresses, `address:port`
//! endpoints, line splitting, and substring search. Every executable
//! function is proved equal to the spec-level grammar it implements.

use vstd::prelude::*;
use vstd::string::*;

use crate::{Connection, Ipv4};

verus! {

/// ASCII whitespace: space, tab, line feed, form feed, carriage return.
pub open spec fn is_ws(c: char) -> bool {
    (c as u32) == 32 || (c as u32) == 9 || (c as u32) == 10 || (c as u32) == 12 || (c as u32)
        == 13
}

pub open spec fn is_digit_char(c: char) -> bool {
    48 <= (c as u32) && (c as u32) <= 57
}

pub open spec fn digit_val(c: char) -> int {
    (c as u32) - 48
}

/// Index of the first occurrence of `c` at or after `i`, or `s.len()` if none.
pub open spec fn find_from(s: Seq<char>, i: int, c: char) -> int
    decreases s.len() - i,
{
    if i < 0 || i >= s.len() {
        s.len() as int
    } else if s[i] == c {
        i
    } else {
        find_from(s, i + 1, c)
    }
}

/// Index of the first non-whitespace character at or after `i`, or `s.len()`.
pub open spec fn skip_ws(s: Seq<char>, i: int) -> int
    decreases s.len() - i,
{
    if i < 0 || i >= s.len() {
        s.len() as int
    } else if is_ws(s[i]) {
        skip_ws(s, i + 1)
    } else {
        i
    }
}

/// Index of the first whitespace character at or after `i`, or `s.len()`.
pub open spec fn token_end(s: Seq<char>, i: int) -> int
    decreases s.len() - i,
{
    if i < 0 || i >= s.len() {
        s.len() as int
    } else if !is_ws(s[i]) {
        token_end(s, i + 1)
    } else {
        i
    }
}

pub open spec fn all_digits(s: Seq<char>) -> bool {
    forall|k: int| 0 <= k < s.len() ==> is_digit_char(s[k])
}

/// Value of a digit string read in base ten.
pub open spec fn dec_val(s: Seq<char>) -> int
    decreases s.len(),
{
    if s.len() == 0 {
        0
    } else {
        dec_val(s.drop_last()) * 10 + digit_val(s.last())
    }
}

pub open spec fn pow10(k: int) -> int
    decreases k,
{
    if k <= 0 {
        1
    } else {
        10 * pow10(k - 1)
    }
}

/// One octet of a dotted quad: one to three digits with a value below 256.
pub open spec fn octet_of_text(s: Seq<char>) -> Option<u8> {
    if 1 <= s.len() <= 3 && all_digits(s) && dec_val(s) < 256 {
        Some(dec_val(s) as u8)
    } else {
        None
    }
}

/// A port number: one to five digits with a value below 65536.
pub open spec fn port_of_text(s: Seq<char>) -> Option<u16> {
    if 1 <= s.len() <= 5 && all_digits(s) && dec_val(s) < 65536 {
        Some(dec_val(s) as u16)
    } else {
        None
    }
}

/// A dotted quad: four octets separated by exactly three dots.
pub open spec fn ipv4_of_text(s: Seq<char>) -> Option<Ipv4> {
    let j1 = find_from(s, 0, '.');
    let j2 = find_from(s, j1 + 1, '.');
    let j3 = find_from(s, j2 + 1, '.');
    if j3 == s.len() {
        None
    } else {
        match (
            octet_of_text(s.subrange(0, j1)),
            octet_of_text(s.subrange(j1 + 1, j2)),
            octet_of_text(s.subrange(j2 + 1, j3)),
            octet_of_text(s.subrange(j3 + 1, s.len() as int)),
        ) {
            (Some(o0), Some(o1), Some(o2), Some(o3)) => Some(Ipv4 { o0, o1, o2, o3 }),
            _ => None,
        }
    }
}

/// An `address:port` endpoint: the address is everything before the first
/// colon, the port everything after it.
pub open spec fn conn_of_text(s: Seq<char>) -> Option<Connection> {
    let j = find_from(s, 0, ':');
    if j == s.len() {
        None
    } else {
        match (ipv4_of_text(s.subrange(0, j)), port_of_text(s.subrange(j + 1, s.len() as int))) {
            (Some(a), Some(p)) => Some(Connection { address: a, port: p }),
            _ => None,
        }
    }
}

pub open spec fn strip_cr(l: Seq<char>) -> Seq<char> {
    if l.len() > 0 && l.last() == '\r' {
        l.drop_last()
    } else {
        l
    }
}

/// The lines of `s` starting at position `i`: split at `'\n'`, dropping a
/// `'\r'` left before a line feed; a final line ending is optional and does
/// not open an empty last line.
pub open spec fn lines_from(s: Seq<char>, i: int) -> Seq<Seq<char>>
    decreases s.len() - i,
    via lines_from_dec
{
    if i < 0 || i >= s.len() {
        Seq::empty()
    } else {
        let j = find_from(s, i, '\n');
        if j == s.len() {
            seq![s.subrange(i, j)]
        } else {
            seq![strip_cr(s.subrange(i, j))] + lines_from(s, j + 1)
        }
    }
}

#[via_fn]
proof fn lines_from_dec(s: Seq<char>, i: int) {
    if 0 <= i && i < s.len() {
        lemma_find_from(s, i, '\n');
    }
}

/// `n` occurs in `h` as a contiguous run of characters.
pub open spec fn has_sub(h: Seq<char>, n: Seq<char>) -> bool {
    exists|k: int| 0 <= k && k + n.len() <= h.len() && #[trigger] h.subrange(k, k + n.len()) == n
}

pub proof fn lemma_find_from(s: Seq<char>, i: int, c: char)
    requires
        0 <= i <= s.len(),
    ensures
        i <= find_from(s, i, c) <= s.len(),
        find_from(s, i, c) < s.len() ==> s[find_from(s, i, c)] == c,
        forall|k: int| i <= k < find_from(s, i, c) ==> s[k] != c,
    decreases s.len() - i,
{
    if i < s.len() && s[i] != c {
        lemma_find_from(s, i + 1, c);
    }
}

pub proof fn lemma_skip_ws(s: Seq<char>, i: int)
    requires
        0 <= i <= s.len(),
    ensures
        i <= skip_ws(s, i) <= s.len(),
        skip_ws(s, i) < s.len() ==> !is_ws(s[skip_ws(s, i)]),
        forall|k: int| i <= k < skip_ws(s, i) ==> is_ws(s[k]),
    decreases s.len() - i,
{
    if i < s.len() && is_ws(s[i]) {
        lemma_skip_ws(s, i + 1);
    }
}

pub proof fn lemma_token_end(s: Seq<char>, i: int)
    requires
        0 <= i <= s.len(),
    ensures
        i <= token_end(s, i) <= s.len(),
        token_end(s, i) < s.len() ==> is_ws(s[token_end(s, i)]),
        forall|k: int| i <= k < token_end(s, i) ==> !is_ws(s[k]),
    decreases s.len() - i,
{
    if i < s.len() && !is_ws(s[i]) {
        lemma_token_end(s, i + 1);
    }
}

proof fn lemma_pow10_pos(k: int)
    ensures
        pow10(k) >= 1,
    decreases k,
{
    if k > 0 {
        lemma_pow10_pos(k - 1);
    }
}

proof fn lemma_pow10_mono(a: int, b: int)
    requires
        a <= b,
    ensures
        pow10(a) <= pow10(b),
    decreases b - a,
{
    if a < b {
        lemma_pow10_mono(a, b - 1);
        lemma_pow10_pos(b - 1);
    }
}

proof fn lemma_pow10_5()
    ensures
        pow10(0) == 1 && pow10(1) == 10 && pow10(2) == 100 && pow10(3) == 1000 && pow10(4)
            == 10000 && pow10(5) == 100000,
{
    assert(pow10(0) == 1);
    assert(pow10(1) == 10);
    assert(pow10(2) == 100);
    assert(pow10(3) == 1000);
    assert(pow10(4) == 10000);
    assert(pow10(5) == 100000);
}

/// `c` first occurs at `j`, given that it is at `j` and nowhere earlier
/// than `i`.
pub proof fn lemma_find_from_at(s: Seq<char>, c: char, i: int, j: int)
    requires
        0 <= i <= j <= s.len(),
        forall|k: int| i <= k < j ==> s[k] != c,
        j == s.len() || s[j] == c,
    ensures
        find_from(s, i, c) == j,
    decreases j - i,
{
    if i < j {
        lemma_find_from_at(s, c, i + 1, j);
    }
}

fn digit_text(d: u8) -> (r: &'static str)
    requires
        d < 10,
    ensures
        r@.len() == 1,
        is_digit_char(r@[0]),
        digit_val(r@[0]) == d as int,
{
    proof {
        reveal_strlit("0");
        reveal_strlit("1");
        reveal_strlit("2");
        reveal_strlit("3");
        reveal_strlit("4");
        reveal_strlit("5");
        reveal_strlit("6");
        reveal_strlit("7");
        reveal_strlit("8");
        reveal_strlit("9");
    }
    match d {
        0 => "0",
        1 => "1",
        2 => "2",
        3 => "3",
        4 => "4",
        5 => "5",
        6 => "6",
        7 => "7",
        8 => "8",
        _ => "9",
    }
}

proof fn lemma_dec_val_snoc(s: Seq<char>, c: char)
    ensures
        dec_val(s.push(c)) == dec_val(s) * 10 + digit_val(c),
{
    assert(s.push(c).drop_last() =~= s);
    assert(s.push(c).last() == c);
}

/// The decimal text of a byte: one to three digits, no leading zero.
pub fn dec_u8_text(n: u8) -> (r: String)
    ensures
        all_digits(r@),
        1 <= r@.len() <= 3,
        dec_val(r@) == n as int,
{
    let mut s = String::new();
    if n >= 100 {
        let t = digit_text(n / 100);
        proof {
            lemma_dec_val_snoc(s@, t@[0]);
            assert(s@ + t@ =~= s@.push(t@[0]));
        }
        s.append(t);
    }
    if n >= 10 {
        let t = digit_text((n / 10) % 10);
        proof {
            lemma_dec_val_snoc(s@, t@[0]);
            assert(s@ + t@ =~= s@.push(t@[0]));
        }
        s.append(t);
    }
    let t = digit_text(n % 10);
    proof {
        lemma_dec_val_snoc(s@, t@[0]);
        assert(s@ + t@ =~= s@.push(t@[0]));
    }
    s.append(t);
    s
}

/// The decimal text of a port number: one to five digits, no leading zero.
pub fn dec_u16_text(n: u16) -> (r: String)
    ensures
        all_digits(r@),
        1 <= r@.len() <= 5,
        dec_val(r@) == n as int,
{
    let d0 = n % 10;
    let m1 = n / 10;
    let d1 = m1 % 10;
    let m2 = m1 / 10;
    let d2 = m2 % 10;
    let m3 = m2 / 10;
    let d3 = m3 % 10;
    let d4 = m3 / 10;
    let mut s = String::new();
    if d4 > 0 {
        let t = digit_text(d4 as u8);
        proof {
            lemma_dec_val_snoc(s@, t@[0]);
            assert(s@ + t@ =~= s@.push(t@[0]));
        }
        s.append(t);
    }
    if m3 > 0 {
        let t = digit_text(d3 as u8);
        proof {
            lemma_dec_val_snoc(s@, t@[0]);
            assert(s@ + t@ =~= s@.push(t@[0]));
        }
        s.append(t);
    }
    if m2 > 0 {
        let t = digit_text(d2 as u8);
        proof {
            lemma_dec_val_snoc(s@, t@[0]);
            assert(s@ + t@ =~= s@.push(t@[0]));
        }
        s.append(t);
    }
    if m1 > 0 {
        let t = digit_text(d1 as u8);
        proof {
            lemma_dec_val_snoc(s@, t@[0]);
            assert(s@ + t@ =~= s@.push(t@[0]));
        }
        s.append(t);
    }
    let t = digit_text(d0 as u8);
    proof {
        lemma_dec_val_snoc(s@, t@[0]);
        assert(s@ + t@ =~= s@.push(t@[0]));
    }
    s.append(t);
    s
}

/// The dotted-quad text of an address; it reads back as the same address.
pub fn ipv4_to_text(a: Ipv4) -> (r: String)
    ensures
        ipv4_of_text(r@) == Some(a),
        forall|k: int| 0 <= k < r@.len() ==> is_digit_char(#[trigger] r@[k]) || r@[k] == '.',
{
    proof {
        reveal_strlit(".");
    }
    let t0 = dec_u8_text(a.o0);
    let t1 = dec_u8_text(a.o1);
    let t2 = dec_u8_text(a.o2);
    let t3 = dec_u8_text(a.o3);
    let mut s = t0;
    let ghost p0 = s@;
    s.append(".");
    s.append(t1.as_str());
    s.append(".");
    s.append(t2.as_str());
    s.append(".");
    s.append(t3.as_str());
    proof {
        let v = s@;
        let dot = '.';
        assert("."@ =~= seq!['.']);
        let j1 = p0.len() as int;
        let j2 = j1 + 1 + t1@.len();
        let j3 = j2 + 1 + t2@.len();
        assert(v =~= p0 + seq!['.'] + t1@ + seq!['.'] + t2@ + seq!['.'] + t3@);
        assert(v[j1] == dot);
        assert(v[j2] == dot);
        assert(v[j3] == dot);
        lemma_find_from_at(v, dot, 0, j1);
        lemma_find_from_at(v, dot, j1 + 1, j2);
        lemma_find_from_at(v, dot, j2 + 1, j3);
        assert(v.subrange(0, j1) =~= p0);
        assert(v.subrange(j1 + 1, j2) =~= t1@);
        assert(v.subrange(j2 + 1, j3) =~= t2@);
        assert(v.subrange(j3 + 1, v.len() as int) =~= t3@);
        assert(octet_of_text(p0) == Some(a.o0));
        assert(octet_of_text(t1@) == Some(a.o1));
        assert(octet_of_text(t2@) == Some(a.o2));
        assert(octet_of_text(t3@) == Some(a.o3));
    }
    s
}

pub fn ws_char(c: char) -> (b: bool)
    ensures
        b == is_ws(c),
{
    let u = c as u32;
    u == 32 || u == 9 || u == 10 || u == 12 || u == 13
}

pub fn find_char_from(s: &str, from: usize, c: char) -> (r: usize)
    requires
        from <= s@.len(),
    ensures
        r == find_from(s@, from as int, c),
{
    let n = s.unicode_len();
    let mut i = from;
    while i < n
        invariant
            from <= i <= n,
            n == s@.len(),
            find_from(s@, from as int, c) == find_from(s@, i as int, c),
        decreases n - i,
    {
        if s.get_char(i) == c {
            return i;
        }
        i = i + 1;
    }
    n
}

pub fn skip_ws_from(s: &str, from: usize) -> (r: usize)
    requires
        from <= s@.len(),
    ensures
        r == skip_ws(s@, from as int),
{
    let n = s.unicode_len();
    let mut i = from;
    while i < n
        invariant
            from <= i <= n,
            n == s@.len(),
            skip_ws(s@, from as int) == skip_ws(s@, i as int),
        decreases n - i,
    {
        if !ws_char(s.get_char(i)) {
            return i;
        }
        i = i + 1;
    }
    n
}

pub fn token_end_from(s: &str, from: usize) -> (r: usize)
    requires
        from <= s@.len(),
    ensures
        r == token_end(s@, from as int),
{
    let n = s.unicode_len();
    let mut i = from;
    while i < n
        invariant
            from <= i <= n,
            n == s@.len(),
            token_end(s@, from as int) == token_end(s@, i as int),
        decreases n - i,
    {
        if ws_char(s.get_char(i)) {
            return i;
        }
        i = i + 1;
    }
    n
}

/// Reads `s` as a decimal number of at most `max_len` digits with a value
/// below `bound`.
fn parse_bounded_decimal(s: &str, max_len: usize, bound: u32) -> (r: Option<u32>)
    requires
        1 <= max_len <= 5,
        bound <= 65536,
    ensures
        match r {
            Some(v) => 1 <= s@.len() <= max_len && all_digits(s@) && dec_val(s@) < bound && v
                == dec_val(s@),
            None => !(1 <= s@.len() <= max_len && all_digits(s@) && dec_val(s@) < bound),
        },
{
    let n = s.unicode_len();
    if n == 0 || n > max_len {
        return None;
    }
    let mut acc: u32 = 0;
    let mut i: usize = 0;
    while i < n
        invariant
            0 <= i <= n,
            n == s@.len(),
            1 <= n <= max_len <= 5,
            forall|k: int| 0 <= k < i ==> is_digit_char(s@[k]),
            acc == dec_val(s@.subrange(0, i as int)),
            acc < pow10(i as int),
        decreases n - i,
    {
        let c = s.get_char(i);
        let u = c as u32;
        if u < 48 || u > 57 {
            assert(!all_digits(s@));
            return None;
        }
        proof {
            lemma_pow10_mono(i as int, 4);
            lemma_pow10_5();
            assert(s@.subrange(0, (i + 1) as int).drop_last() =~= s@.subrange(0, i as int));
            assert(s@.subrange(0, (i + 1) as int).last() == s@[i as int]);
        }
        acc = acc * 10 + (u - 48);
        i = i + 1;
    }
    assert(s@.subrange(0, n as int) =~= s@);
    if acc < bound {
        Some(acc)
    } else {
        None
    }
}

pub fn parse_octet(s: &str) -> (r: Option<u8>)
    ensures
        r == octet_of_text(s@),
{
    match parse_bounded_decimal(s, 3, 256) {
        Some(v) => Some(v as u8),
        None => None,
    }
}

pub fn parse_port(s: &str) -> (r: Option<u16>)
    ensures
        r == port_of_text(s@),
{
    match parse_bounded_decimal(s, 5, 65536) {
        Some(v) => Some(v as u16),
        None => None,
    }
}

pub fn parse_ipv4(s: &str) -> (r: Option<Ipv4>)
    ensures
        r == ipv4_of_text(s@),
{
    let n = s.unicode_len();
    let j1 = find_char_from(s, 0, '.');
    proof {
        lemma_find_from(s@, 0, '.');
    }
    if j1 == n {
        return None;
    }
    let j2 = find_char_from(s, j1 + 1, '.');
    proof {
        lemma_find_from(s@, j1 + 1, '.');
    }
    if j2 == n {
        return None;
    }
    let j3 = find_char_from(s, j2 + 1, '.');
    proof {
        lemma_find_from(s@, j2 + 1, '.');
    }
    if j3 == n {
        return None;
    }
    let s0 = s.substring_char(0, j1);
    let s1 = s.substring_char(j1 + 1, j2);
    let s2 = s.substring_char(j2 + 1, j3);
    let s3 = s.substring_char(j3 + 1, n);
    match (parse_octet(s0), parse_octet(s1), parse_octet(s2), parse_octet(s3)) {
        (Some(o0), Some(o1), Some(o2), Some(o3)) => Some(Ipv4 { o0, o1, o2, o3 }),
        _ => None,
    }
}

pub fn parse_connection(s: &str) -> (r: Option<Connection>)
    ensures
        r == conn_of_text(s@),
{
    let n = s.unicode_len();
    let j = find_char_from(s, 0, ':');
    proof {
        lemma_find_from(s@, 0, ':');
    }
    if j == n {
        return None;
    }
    let addr_part = s.substring_char(0, j);
    let port_part = s.substring_char(j + 1, n);
    match (parse_ipv4(addr_part), parse_port(port_part)) {
        (Some(a), Some(p)) => Some(Connection { address: a, port: p }),
        _ => None,
    }
}

/// Splits `s` into its lines, as `lines_from` describes.
pub fn split_lines(s: &str) -> (r: Vec<String>)
    ensures
        r@.map_values(|l: String| l@) == lines_from(s@, 0),
{
    let n = s.unicode_len();
    let mut out: Vec<String> = Vec::new();
    let mut pos: usize = 0;
    while pos < n
        invariant
            0 <= pos <= n,
            n == s@.len(),
            out@.map_values(|l: String| l@) + lines_from(s@, pos as int) == lines_from(s@, 0),
        decreases n - pos,
    {
        let j = find_char_from(s, pos, '\n');
        proof {
            lemma_find_from(s@, pos as int, '\n');
        }
        let ghost prev = out@.map_values(|l: String| l@);
        let raw = s.substring_char(pos, j);
        let line: &str = if j < n && raw.unicode_len() > 0 && raw.get_char(
            raw.unicode_len() - 1,
        ) == '\r' {
            let t = raw.substring_char(0, raw.unicode_len() - 1);
            proof {
                assert(raw@.subrange(0, raw@.len() - 1) =~= raw@.drop_last());
            }
            t
        } else {
            raw
        };
        assert(j < n ==> line@ == strip_cr(s@.subrange(pos as int, j as int)));
        out.push(String::from_str(line));
        assert(out@.map_values(|l: String| l@) =~= prev.push(line@));
        if j == n {
            pos = n;
            assert(out@.map_values(|l: String| l@) + lines_from(s@, pos as int) =~= lines_from(
                s@,
                0,
            ));
        } else {
            pos = j + 1;
            assert(out@.map_values(|l: String| l@) + lines_from(s@, pos as int) =~= lines_from(
                s@,
                0,
            ));
        }
    }
    assert(out@.map_values(|l: String| l@) =~= lines_from(s@, 0));
    out
}

/// Character-wise string equality.
pub fn str_eq(a: &str, b: &str) -> (r: bool)
    ensures
        r == (a@ == b@),
{
    let na = a.unicode_len();
    let nb = b.unicode_len();
    if na != nb {
        return false;
    }
    let mut i: usize = 0;
    while i < na
        invariant
            0 <= i <= na,
            na == a@.len(),
            na == b@.len(),
            forall|k: int| 0 <= k < i ==> a@[k] == b@[k],
        decreases na - i,
    {
        if a.get_char(i) != b.get_char(i) {
            return false;
        }
        i = i + 1;
    }
    proof {
        assert(a@ =~= b@);
    }
    true
}

/// Substring search: does `n` occur contiguously in `h`?
pub fn str_contains_sub(h: &str, n: &str) -> (r: bool)
    ensures
        r == has_sub(h@, n@),
{
    let hn = h.unicode_len();
    let nn = n.unicode_len();
    if nn > hn {
        return false;
    }
    if nn == 0 {
        proof {
            assert(h@.subrange(0, 0 + n@.len() as int) =~= n@);
            assert(has_sub(h@, n@));
        }
        return true;
    }
    let mut k: usize = 0;
    while k <= hn - nn
        invariant
            0 <= k <= hn - nn + 1,
            1 <= nn <= hn,
            hn == h@.len(),
            nn == n@.len(),
            forall|k2: int| 0 <= k2 < k ==> #[trigger] h@.subrange(k2, k2 + n@.len()) != n@,
        decreases hn - k,
    {
        let mut j: usize = 0;
        let mut matched = true;
        while j < nn
            invariant
                0 <= j <= nn,
                k + nn <= hn,
                hn == h@.len(),
                nn == n@.len(),
                matched ==> forall|t: int| 0 <= t < j ==> h@[k + t] == n@[t],
                !matched ==> h@.subrange(k as int, k + n@.len()) != n@,
            decreases nn - j,
        {
            if h.get_char(k + j) != n.get_char(j) {
                proof {
                    assert(h@.subrange(k as int, k + n@.len())[j as int] == h@[k + j]);
                }
                matched = false;
                j = nn;
            } else {
                j = j + 1;
            }
        }
        if matched {
            proof {
                assert(h@.subrange(k as int, k + n@.len()) =~= n@);
            }
            return true;
        }
        k = k + 1;
    }
    proof {
        assert forall|k2: int| 0 <= k2 && k2 + n@.len() <= h@.len() implies #[trigger] h@.subrange(
            k2,
            k2 + n@.len(),
        ) != n@ by {
            assert(k2 < k);
        }
    }
    false
}

} // verus!
