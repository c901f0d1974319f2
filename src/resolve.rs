use vstd::prelude::*;

use crate::ip::{chars_of, ip_of, parse_ip_chars, split_on, sub_chars, IpAddress, IpModel, SocketAddress};

verus! {

/// Which evidence the resolved address came from.
#[derive(Clone, Copy, Debug, PartialEq, Eq, Structural)]
pub enum Source {
    ForwardedHeader,
    XForwardedForHeader,
    XRealIpHeader,
    SocketAddr,
}

impl Source {
    /// A human-readable name of the source.
    pub fn label(&self) -> (r: &'static str)
        ensures
            r@ == source_label(*self),
    {
        match self {
            Source::ForwardedHeader => "'Forwarded' header",
            Source::XForwardedForHeader => "'X-Forwarded-For' header",
            Source::XRealIpHeader => "'X-Real-Ip' header",
            Source::SocketAddr => "Socket address",
        }
    }
}

pub open spec fn source_label(s: Source) -> Seq<char> {
    match s {
        Source::ForwardedHeader => "'Forwarded' header"@,
        Source::XForwardedForHeader => "'X-Forwarded-For' header"@,
        Source::XRealIpHeader => "'X-Real-Ip' header"@,
        Source::SocketAddr => "Socket address"@,
    }
}

// ---------------------------------------------------------------------------
// Text helpers
// ---------------------------------------------------------------------------

/// A character with the Unicode `White_Space` property.
pub open spec fn is_white_space(c: char) -> bool {
    ('\t' <= c && c <= '\r') || c == ' ' || c == '\u{85}' || c == '\u{a0}' || c == '\u{1680}'
        || ('\u{2000}' <= c && c <= '\u{200a}') || c == '\u{2028}' || c == '\u{2029}' || c
        == '\u{202f}' || c == '\u{205f}' || c == '\u{3000}'
}

/// The first position at or after `i` that is not white space, or the length.
pub open spec fn trim_start_at(s: Seq<char>, i: nat) -> nat
    decreases s.len() - i,
{
    if i < s.len() && is_white_space(s[i as int]) {
        trim_start_at(s, i + 1)
    } else {
        i
    }
}

/// The end of the text once white space at or before `j` is dropped.
pub open spec fn trim_end_at(s: Seq<char>, lo: nat, j: nat) -> nat
    decreases j,
{
    if j > lo && is_white_space(s[j - 1]) {
        trim_end_at(s, lo, (j - 1) as nat)
    } else {
        j
    }
}

/// `s` without leading and trailing white space.
pub open spec fn trimmed(s: Seq<char>) -> Seq<char> {
    let lo = trim_start_at(s, 0);
    s.subrange(lo as int, trim_end_at(s, lo, s.len()) as int)
}

/// The last position below `j` that holds `c`.
pub open spec fn last_index_below(s: Seq<char>, c: char, j: nat) -> Option<nat>
    decreases j,
{
    if j == 0 {
        None
    } else if s[j - 1] == c {
        Some((j - 1) as nat)
    } else {
        last_index_below(s, c, (j - 1) as nat)
    }
}

/// The last position below `j` where `]:` starts.
pub open spec fn last_bracket_colon_below(s: Seq<char>, j: nat) -> Option<nat>
    decreases j,
{
    if j < 2 {
        None
    } else if s[j - 2] == ']' && s[j - 1] == ':' {
        Some((j - 2) as nat)
    } else {
        last_bracket_colon_below(s, (j - 1) as nat)
    }
}

// ---------------------------------------------------------------------------
// The resolution rules
// ---------------------------------------------------------------------------

/// The last entry of a comma-separated list, without surrounding white space.
pub open spec fn last_entry(s: Seq<char>) -> Seq<char> {
    trimmed(split_on(s, ',').last())
}

/// The address part of a list entry once an optional port is taken off:
/// up to and including the `]` of a last `]:`, that bracketed literal then
/// standing for the address inside it; else, where the entry holds exactly
/// one `:`, what stands before it; else the entry itself.
pub open spec fn host_part(s: Seq<char>) -> Seq<char> {
    match last_bracket_colon_below(s, s.len()) {
        Some(k) => if s[0] == '[' {
            s.subrange(1, k as int)
        } else {
            s.take(k + 1 as int)
        },
        None => match last_index_below(s, ':', s.len()) {
            Some(k) => if last_index_below(s, ':', k) is None {
                s.take(k as int)
            } else {
                s
            },
            None => s,
        },
    }
}

/// What the forwarded-chain header yields, if anything.
pub open spec fn forwarded_candidate(v: Option<Seq<char>>) -> Option<IpModel> {
    match v {
        Some(t) => ip_of(host_part(last_entry(t))),
        None => None,
    }
}

/// What the real-IP header yields, if anything.
pub open spec fn real_ip_candidate(v: Option<Seq<char>>) -> Option<IpModel> {
    match v {
        Some(t) => ip_of(trimmed(t)),
        None => None,
    }
}

/// The resolved address: the forwarded chain first, then the real-IP header,
/// then the socket's own address.
pub open spec fn resolve(
    forwarded: Option<Seq<char>>,
    real_ip: Option<Seq<char>>,
    socket_ip: IpModel,
) -> (IpModel, Source) {
    if forwarded_candidate(forwarded) is Some {
        (forwarded_candidate(forwarded)->0, Source::XForwardedForHeader)
    } else if real_ip_candidate(real_ip) is Some {
        (real_ip_candidate(real_ip)->0, Source::XRealIpHeader)
    } else {
        (socket_ip, Source::SocketAddr)
    }
}

pub open spec fn text_of(v: Option<&str>) -> Option<Seq<char>> {
    match v {
        Some(t) => Some(t@),
        None => None,
    }
}

/// Fallback order: when the forwarded chain is absent or yields no address,
/// the result is what the real-IP header alone gives; when neither header
/// yields an address, the result is the socket's own address, tagged as such.
pub proof fn lemma_fallback_order(
    forwarded: Option<Seq<char>>,
    real_ip: Option<Seq<char>>,
    socket_ip: IpModel,
)
    ensures
        forwarded_candidate(forwarded) is None ==> resolve(forwarded, real_ip, socket_ip)
            == resolve(None, real_ip, socket_ip),
        forwarded_candidate(forwarded) is None && real_ip_candidate(real_ip) is None ==> resolve(
            forwarded,
            real_ip,
            socket_ip,
        ) == (socket_ip, Source::SocketAddr),
{
}

// ---------------------------------------------------------------------------
// Lemmas
// ---------------------------------------------------------------------------

proof fn lemma_split_nonempty(s: Seq<char>, sep: char)
    ensures
        split_on(s, sep).len() >= 1,
    decreases s.len(),
{
    if s.len() > 0 {
        lemma_split_nonempty(s.drop_last(), sep);
    }
}

proof fn lemma_last_index_range(s: Seq<char>, c: char, j: nat)
    ensures
        last_index_below(s, c, j) matches Some(k) ==> k < j && s[k as int] == c,
    decreases j,
{
    if j > 0 && s[j - 1] != c {
        lemma_last_index_range(s, c, (j - 1) as nat);
    }
}

proof fn lemma_last_index_prefix(s: Seq<char>, t: Seq<char>, c: char, j: nat)
    requires
        j <= s.len(),
        j <= t.len(),
        forall|i: int| 0 <= i < j ==> s[i] == t[i],
    ensures
        last_index_below(s, c, j) == last_index_below(t, c, j),
    decreases j,
{
    if j > 0 {
        lemma_last_index_prefix(s, t, c, (j - 1) as nat);
    }
}

proof fn lemma_bracket_colon_range(s: Seq<char>, j: nat)
    ensures
        last_bracket_colon_below(s, j) matches Some(k) ==> k + 2 <= j && s[k as int] == ']',
    decreases j,
{
    if j >= 2 && !(s[j - 2] == ']' && s[j - 1] == ':') {
        lemma_bracket_colon_range(s, (j - 1) as nat);
    }
}

/// The start of the last piece of `s` split on `sep`.
pub open spec fn last_piece_start(s: Seq<char>, sep: char) -> nat {
    match last_index_below(s, sep, s.len()) {
        Some(k) => k + 1,
        None => 0,
    }
}

proof fn lemma_last_piece(s: Seq<char>, sep: char)
    ensures
        last_piece_start(s, sep) <= s.len(),
        split_on(s, sep).last() == s.skip(last_piece_start(s, sep) as int),
    decreases s.len(),
{
    lemma_last_index_range(s, sep, s.len());
    if s.len() == 0 {
        assert(s.skip(0) =~= Seq::<char>::empty());
    } else {
        let p = s.drop_last();
        lemma_last_piece(p, sep);
        lemma_split_nonempty(p, sep);
        if s.last() == sep {
            assert(s.skip(s.len() as int) =~= Seq::<char>::empty());
        } else {
            lemma_last_index_prefix(s, p, sep, p.len());
            assert(s.skip(last_piece_start(s, sep) as int) =~= p.skip(
                last_piece_start(p, sep) as int,
            ).push(s.last()));
        }
    }
}

// ---------------------------------------------------------------------------
// Executable rules
// ---------------------------------------------------------------------------

fn is_white_space_char(c: char) -> (r: bool)
    ensures
        r == is_white_space(c),
{
    ('\t' <= c && c <= '\r') || c == ' ' || c == '\u{85}' || c == '\u{a0}' || c == '\u{1680}'
        || ('\u{2000}' <= c && c <= '\u{200a}') || c == '\u{2028}' || c == '\u{2029}' || c
        == '\u{202f}' || c == '\u{205f}' || c == '\u{3000}'
}

/// The bounds of `s` without leading and trailing white space.
fn trim_bounds(s: &Vec<char>) -> (r: (usize, usize))
    ensures
        r.0 <= r.1 <= s@.len(),
        s@.subrange(r.0 as int, r.1 as int) == trimmed(s@),
{
    let n = s.len();
    let mut lo: usize = 0;
    while lo < n && is_white_space_char(s[lo])
        invariant
            n == s@.len(),
            lo <= n,
            trim_start_at(s@, 0) == trim_start_at(s@, lo as nat),
        decreases n - lo,
    {
        lo = lo + 1;
    }
    let mut hi: usize = n;
    while hi > lo && is_white_space_char(s[hi - 1])
        invariant
            n == s@.len(),
            lo <= hi <= n,
            trim_start_at(s@, 0) == lo,
            trim_end_at(s@, lo as nat, n as nat) == trim_end_at(s@, lo as nat, hi as nat),
        decreases hi,
    {
        hi = hi - 1;
    }
    (lo, hi)
}

/// The last position below `below` that holds `c`.
fn rfind_char(s: &Vec<char>, c: char, below: usize) -> (r: Option<usize>)
    requires
        below <= s@.len(),
    ensures
        match r {
            Some(k) => last_index_below(s@, c, below as nat) == Some(k as nat),
            None => last_index_below(s@, c, below as nat) is None,
        },
{
    let mut j: usize = below;
    while j > 0
        invariant
            j <= below <= s@.len(),
            last_index_below(s@, c, below as nat) == last_index_below(s@, c, j as nat),
        decreases j,
    {
        if s[j - 1] == c {
            return Some(j - 1);
        }
        j = j - 1;
    }
    None
}

/// The last position where `]:` starts.
fn rfind_bracket_colon(s: &Vec<char>) -> (r: Option<usize>)
    ensures
        match r {
            Some(k) => last_bracket_colon_below(s@, s@.len()) == Some(k as nat),
            None => last_bracket_colon_below(s@, s@.len()) is None,
        },
{
    let mut j: usize = s.len();
    while j >= 2
        invariant
            j <= s@.len(),
            last_bracket_colon_below(s@, s@.len()) == last_bracket_colon_below(s@, j as nat),
        decreases j,
    {
        if s[j - 2] == ']' && s[j - 1] == ':' {
            return Some(j - 2);
        }
        j = j - 1;
    }
    None
}

/// The address part of a list entry, with an optional port taken off.
fn host_chars(s: &Vec<char>) -> (r: Vec<char>)
    ensures
        r@ == host_part(s@),
{
    let n = s.len();
    match rfind_bracket_colon(s) {
        Some(k) => {
            proof {
                lemma_bracket_colon_range(s@, n as nat);
            }
            if s[0] == '[' {
                sub_chars(s, 1, k)
            } else {
                let r = sub_chars(s, 0, k + 1);
                assert(r@ =~= s@.take(k + 1 as int));
                r
            }
        },
        None => {
            proof {
                lemma_last_index_range(s@, ':', n as nat);
            }
            match rfind_char(s, ':', n) {
                Some(k) => {
                    let r = if rfind_char(s, ':', k).is_none() {
                        sub_chars(s, 0, k)
                    } else {
                        sub_chars(s, 0, n)
                    };
                    assert(s@.take(k as int) =~= s@.subrange(0, k as int));
                    assert(s@ =~= s@.subrange(0, n as int));
                    r
                },
                None => {
                    let r = sub_chars(s, 0, n);
                    assert(s@ =~= s@.subrange(0, n as int));
                    r
                },
            }
        },
    }
}

/// The last entry of a comma-separated forwarded chain, without
/// surrounding white space; a list always has a last entry.
pub fn get_last_addr_from_x_forwarded_for_header(value: &str) -> (r: Option<&str>)
    ensures
        r matches Some(t) && t@ == last_entry(value@),
{
    let c = chars_of(value);
    let n = c.len();
    proof {
        lemma_last_index_range(c@, ',', n as nat);
        lemma_last_piece(c@, ',');
    }
    let start = match rfind_char(&c, ',', n) {
        Some(k) => k + 1,
        None => 0,
    };
    let piece = sub_chars(&c, start, n);
    assert(piece@ =~= c@.skip(start as int));
    let (lo, hi) = trim_bounds(&piece);
    let t = value.substring_char(start + lo, start + hi);
    assert(t@ =~= piece@.subrange(lo as int, hi as int));
    Some(t)
}

/// Parses a list entry as an address, after taking off an optional port.
pub fn parse_ip_address(value: &str) -> (r: Option<IpAddress>)
    ensures
        match r {
            Some(a) => ip_of(host_part(value@)) == Some(a@),
            None => ip_of(host_part(value@)) is None,
        },
{
    parse_ip_chars(&host_chars(&chars_of(value)))
}

/// Parses a single address surrounded by optional white space.
fn parse_trimmed_ip(value: &str) -> (r: Option<IpAddress>)
    ensures
        match r {
            Some(a) => ip_of(trimmed(value@)) == Some(a@),
            None => ip_of(trimmed(value@)) is None,
        },
{
    let c = chars_of(value);
    let (lo, hi) = trim_bounds(&c);
    parse_ip_chars(&sub_chars(&c, lo, hi))
}

/// Chooses the client address from the two proxy header values (already
/// decoded as text, where present) and the socket address: the last entry
/// of the forwarded chain where it parses, else the real-IP value where it
/// parses, else the socket's own address.
pub fn pick_best_ip_from_options(
    x_forwarded_for: Option<&str>,
    real_ip: Option<&str>,
    addr: SocketAddress,
) -> (r: (IpAddress, Source))
    ensures
        (r.0@, r.1) == resolve(text_of(x_forwarded_for), text_of(real_ip), addr.ip@),
{
    let from_chain = match x_forwarded_for {
        Some(v) => match get_last_addr_from_x_forwarded_for_header(v) {
            Some(last) => parse_ip_address(last),
            None => None,
        },
        None => None,
    };
    match from_chain {
        Some(ip) => (ip, Source::XForwardedForHeader),
        None => {
            let from_real = match real_ip {
                Some(v) => parse_trimmed_ip(v),
                None => None,
            };
            match from_real {
                Some(ip) => (ip, Source::XRealIpHeader),
                None => (addr.ip, Source::SocketAddr),
            }
        },
    }
}

} // verus!
