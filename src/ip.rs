use vstd::prelude::*;

verus! {

/// An IP address: four octets, or eight 16-bit groups, most significant first.
#[derive(Clone, Copy, Debug, PartialEq, Eq)]
pub enum IpAddress {
    V4([u8; 4]),
    V6([u16; 8]),
}

/// The mathematical form of an [`IpAddress`].
pub enum IpModel {
    V4(Seq<u8>),
    V6(Seq<u16>),
}

impl View for IpAddress {
    type V = IpModel;

    open spec fn view(&self) -> IpModel {
        match self {
            IpAddress::V4(o) => IpModel::V4(o@),
            IpAddress::V6(g) => IpModel::V6(g@),
        }
    }
}

/// A transport-level address: an IP address and a port.
#[derive(Clone, Copy, Debug, PartialEq, Eq)]
pub struct SocketAddress {
    pub ip: IpAddress,
    pub port: u16,
}

// ---------------------------------------------------------------------------
// The textual grammar of IP addresses
// ---------------------------------------------------------------------------

pub open spec fn is_dec_digit(c: char) -> bool {
    '0' <= c && c <= '9'
}

pub open spec fn is_hex_digit(c: char) -> bool {
    is_dec_digit(c) || ('a' <= c && c <= 'f') || ('A' <= c && c <= 'F')
}

/// The value of a decimal or hexadecimal digit.
pub open spec fn digit_value(c: char) -> nat {
    if is_dec_digit(c) {
        (c as u32 - '0' as u32) as nat
    } else if 'a' <= c && c <= 'f' {
        (c as u32 - 'a' as u32 + 10) as nat
    } else {
        (c as u32 - 'A' as u32 + 10) as nat
    }
}

/// The value of a numeral written most significant digit first.
pub open spec fn numeral_value(s: Seq<char>, radix: nat) -> nat
    decreases s.len(),
{
    if s.len() == 0 {
        0
    } else {
        numeral_value(s.drop_last(), radix) * radix + digit_value(s.last())
    }
}

pub open spec fn radix_pow(radix: nat, n: nat) -> nat
    decreases n,
{
    if n == 0 {
        1
    } else {
        radix * radix_pow(radix, (n - 1) as nat)
    }
}

/// One decimal octet of a dotted IPv4 address: one to three digits, no leading
/// zero unless the octet is `0` itself, at most 255.
pub open spec fn octet_of(s: Seq<char>) -> Option<u8> {
    if 1 <= s.len() <= 3 && (forall|i: int| 0 <= i < s.len() ==> is_dec_digit(#[trigger] s[i]))
        && !(s.len() > 1 && s[0] == '0') && numeral_value(s, 10) <= 255 {
        Some(numeral_value(s, 10) as u8)
    } else {
        None
    }
}

/// One group of an IPv6 address: one to four hexadecimal digits.
pub open spec fn group_of(s: Seq<char>) -> Option<u16> {
    if 1 <= s.len() <= 4 && (forall|i: int| 0 <= i < s.len() ==> is_hex_digit(#[trigger] s[i])) {
        Some(numeral_value(s, 16) as u16)
    } else {
        None
    }
}

/// The pieces of `s` between occurrences of `sep`; there is always at least one.
pub open spec fn split_on(s: Seq<char>, sep: char) -> Seq<Seq<char>>
    decreases s.len(),
{
    if s.len() == 0 {
        seq![Seq::empty()]
    } else {
        let rest = split_on(s.drop_last(), sep);
        if s.last() == sep {
            rest.push(Seq::empty())
        } else {
            rest.update(rest.len() - 1, rest.last().push(s.last()))
        }
    }
}

/// A dotted IPv4 address: exactly four octets separated by `.`.
pub open spec fn ipv4_of(s: Seq<char>) -> Option<Seq<u8>> {
    let p = split_on(s, '.');
    if p.len() == 4 && (forall|i: int| 0 <= i < 4 ==> (#[trigger] octet_of(p[i])) is Some) {
        Some(seq![octet_of(p[0])->0, octet_of(p[1])->0, octet_of(p[2])->0, octet_of(p[3])->0])
    } else {
        None
    }
}

/// The two groups that an embedded IPv4 address stands for.
pub open spec fn v4_groups(o: Seq<u8>) -> Seq<u16> {
    seq![(o[0] as int * 256 + o[1] as int) as u16, (o[2] as int * 256 + o[3] as int) as u16]
}

/// The groups written by a list of colon-separated items; where `v4_last`
/// holds, the last item may be a dotted IPv4 address, worth two groups.
pub open spec fn groups_of(items: Seq<Seq<char>>, v4_last: bool) -> Option<Seq<u16>>
    decreases items.len(),
{
    if items.len() == 0 {
        Some(Seq::empty())
    } else {
        match groups_of(items.drop_last(), false) {
            None => None,
            Some(front) => match group_of(items.last()) {
                Some(g) => Some(front.push(g)),
                None => if v4_last && ipv4_of(items.last()) is Some {
                    Some(front + v4_groups(ipv4_of(items.last())->0))
                } else {
                    None
                },
            },
        }
    }
}

/// The items of a colon-separated list; the empty text holds none.
pub open spec fn items_of(s: Seq<char>) -> Seq<Seq<char>> {
    if s.len() == 0 {
        Seq::empty()
    } else {
        split_on(s, ':')
    }
}

/// The first position, from `i` on, where `::` starts.
pub open spec fn double_colon_from(s: Seq<char>, i: nat) -> Option<nat>
    decreases s.len() - i,
{
    if i + 1 >= s.len() {
        None
    } else if s[i as int] == ':' && s[i + 1 as int] == ':' {
        Some(i)
    } else {
        double_colon_from(s, i + 1)
    }
}

/// An IPv6 address in text: eight groups (the last two possibly written as
/// a dotted IPv4 address); or, around the first `::`, a head of plain groups
/// and a tail of groups with at most seven between them, `::` standing for
/// the zero groups that complete eight.
pub open spec fn ipv6_of(s: Seq<char>) -> Option<Seq<u16>> {
    match double_colon_from(s, 0) {
        None => {
            let g = groups_of(split_on(s, ':'), true);
            if g is Some && g->0.len() == 8 {
                g
            } else {
                None
            }
        },
        Some(k) => {
            let head = groups_of(items_of(s.take(k as int)), false);
            let tail = groups_of(items_of(s.skip(k + 2 as int)), true);
            if head is Some && tail is Some && head->0.len() + tail->0.len() <= 7 {
                let zeros = Seq::new((8 - head->0.len() - tail->0.len()) as nat, |i: int| 0u16);
                Some(head->0 + zeros + tail->0)
            } else {
                None
            }
        },
    }
}

/// An IPv4 or IPv6 address in text, without brackets, port or whitespace.
pub open spec fn ip_of(s: Seq<char>) -> Option<IpModel> {
    if ipv4_of(s) is Some {
        Some(IpModel::V4(ipv4_of(s)->0))
    } else if ipv6_of(s) is Some {
        Some(IpModel::V6(ipv6_of(s)->0))
    } else {
        None
    }
}


/// The views of a list of character vectors.
pub open spec fn views(v: Seq<Vec<char>>) -> Seq<Seq<char>> {
    v.map_values(|p: Vec<char>| p@)
}

// ---------------------------------------------------------------------------
// Lemmas
// ---------------------------------------------------------------------------

proof fn lemma_pow_bound(radix: nat, n: nat)
    requires
        radix <= 16,
        n <= 3,
    ensures
        radix_pow(radix, n) <= (if n == 0 {
            1nat
        } else if n == 1 {
            16nat
        } else if n == 2 {
            256nat
        } else {
            4096nat
        }),
        radix_pow(radix, n) <= 4096,
    decreases n,
{
    if n > 0 {
        lemma_pow_bound(radix, (n - 1) as nat);
        let p = radix_pow(radix, (n - 1) as nat);
        let b: nat = if n == 1 {
            1
        } else if n == 2 {
            16
        } else {
            256
        };
        assert(radix * p <= 16 * b) by (nonlinear_arith)
            requires
                radix <= 16,
                p <= b,
        ;
    }
}

proof fn lemma_groups_prefix_none(items: Seq<Seq<char>>, k: int, v4_last: bool)
    requires
        0 <= k <= items.len(),
        groups_of(items.take(k), false) is None,
        k < items.len() || !v4_last,
    ensures
        groups_of(items, v4_last) is None,
    decreases items.len(),
{
    if k == items.len() {
        assert(items.take(k) =~= items);
    } else {
        assert(items.drop_last().take(k) =~= items.take(k));
        lemma_groups_prefix_none(items.drop_last(), k, false);
    }
}

proof fn lemma_double_colon_in_range(s: Seq<char>, i: nat)
    ensures
        double_colon_from(s, i) matches Some(k) ==> i <= k && k + 1 < s.len() && s[k as int]
            == ':' && s[k + 1 as int] == ':',
    decreases s.len() - i,
{
    if i + 1 < s.len() && !(s[i as int] == ':' && s[i + 1 as int] == ':') {
        lemma_double_colon_in_range(s, i + 1);
    }
}

// ---------------------------------------------------------------------------
// Parsing
// ---------------------------------------------------------------------------

/// The characters of `s`, one by one.
pub fn chars_of(s: &str) -> (r: Vec<char>)
    ensures
        r@ == s@,
{
    let n = s.unicode_len();
    let mut r: Vec<char> = Vec::new();
    let mut i: usize = 0;
    while i < n
        invariant
            n == s@.len(),
            i <= n,
            r@ == s@.take(i as int),
        decreases n - i,
    {
        r.push(s.get_char(i));
        i = i + 1;
        assert(r@ =~= s@.take(i as int));
    }
    assert(r@ =~= s@);
    r
}

fn is_dec_char(c: char) -> (r: bool)
    ensures
        r == is_dec_digit(c),
{
    '0' <= c && c <= '9'
}

fn is_hex_char(c: char) -> (r: bool)
    ensures
        r == is_hex_digit(c),
{
    ('0' <= c && c <= '9') || ('a' <= c && c <= 'f') || ('A' <= c && c <= 'F')
}

fn digit_of(c: char) -> (r: u32)
    requires
        is_hex_digit(c),
    ensures
        r as nat == digit_value(c),
        r < 16,
        is_dec_digit(c) ==> r < 10,
{
    if '0' <= c && c <= '9' {
        (c as u32) - ('0' as u32)
    } else if 'a' <= c && c <= 'f' {
        (c as u32) - ('a' as u32) + 10
    } else {
        (c as u32) - ('A' as u32) + 10
    }
}

/// Whether every character of `s` is a digit of the radix (10 or 16).
fn all_digits(s: &Vec<char>, hex: bool) -> (r: bool)
    ensures
        r == (forall|i: int|
            0 <= i < s@.len() ==> if hex {
                is_hex_digit(#[trigger] s@[i])
            } else {
                is_dec_digit(s@[i])
            }),
{
    let mut i: usize = 0;
    while i < s.len()
        invariant
            i <= s@.len(),
            forall|j: int|
                0 <= j < i ==> if hex {
                    is_hex_digit(#[trigger] s@[j])
                } else {
                    is_dec_digit(s@[j])
                },
        decreases s@.len() - i,
    {
        let ok = if hex {
            is_hex_char(s[i])
        } else {
            is_dec_char(s[i])
        };
        if !ok {
            return false;
        }
        i = i + 1;
    }
    true
}

fn numeral(s: &Vec<char>, radix: u32) -> (r: u32)
    requires
        radix == 10 || radix == 16,
        s@.len() <= 4,
        forall|i: int| 0 <= i < s@.len() ==> is_hex_digit(#[trigger] s@[i]),
        radix == 10 ==> forall|i: int| 0 <= i < s@.len() ==> is_dec_digit(#[trigger] s@[i]),
    ensures
        r as nat == numeral_value(s@, radix as nat),
        r < 65536,
{
    let mut acc: u32 = 0;
    let mut i: usize = 0;
    while i < s.len()
        invariant
            i <= s@.len(),
            s@.len() <= 4,
            radix == 10 || radix == 16,
            forall|j: int| 0 <= j < s@.len() ==> is_hex_digit(#[trigger] s@[j]),
            radix == 10 ==> forall|j: int| 0 <= j < s@.len() ==> is_dec_digit(#[trigger] s@[j]),
            acc as nat == numeral_value(s@.take(i as int), radix as nat),
            acc < radix_pow(radix as nat, i as nat),
            acc < 65536,
        decreases s@.len() - i,
    {
        let d = digit_of(s[i]);
        assert(d < radix);
        proof {
            lemma_pow_bound(radix as nat, i as nat);
            let p = radix_pow(radix as nat, i as nat);
            assert(acc * radix + d < p * radix) by (nonlinear_arith)
                requires
                    acc < p,
                    d < radix,
            ;
            assert(p * radix <= 4096 * 16) by (nonlinear_arith)
                requires
                    p <= 4096,
                    radix <= 16,
            ;
            assert(radix_pow(radix as nat, (i + 1) as nat) == radix * p);
        }
        acc = acc * radix + d;
        i = i + 1;
        assert(s@.take(i as int).drop_last() =~= s@.take(i - 1));
    }
    assert(s@.take(i as int) =~= s@);
    acc
}

fn parse_octet(s: &Vec<char>) -> (r: Option<u8>)
    ensures
        r == octet_of(s@),
{
    let n = s.len();
    if n < 1 || n > 3 || !all_digits(s, false) {
        return None;
    }
    if n > 1 && s[0] == '0' {
        return None;
    }
    let v = numeral(s, 10);
    if v > 255 {
        None
    } else {
        Some(v as u8)
    }
}

fn parse_group(s: &Vec<char>) -> (r: Option<u16>)
    ensures
        r == group_of(s@),
{
    let n = s.len();
    if n < 1 || n > 4 || !all_digits(s, true) {
        return None;
    }
    let v = numeral(s, 16);
    Some(v as u16)
}

/// The pieces of `s` between occurrences of `sep`.
fn split_chars(s: &Vec<char>, sep: char) -> (r: Vec<Vec<char>>)
    ensures
        views(r@) == split_on(s@, sep),
{
    let mut pieces: Vec<Vec<char>> = Vec::new();
    let mut cur: Vec<char> = Vec::new();
    let mut i: usize = 0;
    assert(views(pieces@).push(cur@) =~= split_on(s@.take(0), sep));
    while i < s.len()
        invariant
            i <= s@.len(),
            views(pieces@).push(cur@) == split_on(s@.take(i as int), sep),
        decreases s@.len() - i,
    {
        let c = s[i];
        let ghost before = split_on(s@.take(i as int), sep);
        assert(s@.take(i + 1).drop_last() =~= s@.take(i as int));
        if c == sep {
            pieces.push(cur);
            cur = Vec::new();
            assert(views(pieces@).push(cur@) =~= before.push(Seq::empty()));
        } else {
            let ghost old_cur = cur@;
            cur.push(c);
            assert(views(pieces@).push(cur@) =~= before.update(
                before.len() - 1,
                old_cur.push(c),
            ));
        }
        i = i + 1;
    }
    assert(s@.take(i as int) =~= s@);
    pieces.push(cur);
    pieces
}

/// A dotted IPv4 address.
fn parse_ipv4(s: &Vec<char>) -> (r: Option<[u8; 4]>)
    ensures
        match r {
            Some(o) => ipv4_of(s@) == Some(o@),
            None => ipv4_of(s@) is None,
        },
{
    let p = split_chars(s, '.');
    if p.len() != 4 {
        return None;
    }
    let ghost v = views(p@);
    assert(v[0] == p@[0]@ && v[1] == p@[1]@ && v[2] == p@[2]@ && v[3] == p@[3]@);
    match (parse_octet(&p[0]), parse_octet(&p[1]), parse_octet(&p[2]), parse_octet(&p[3])) {
        (Some(a), Some(b), Some(c), Some(d)) => {
            let o = [a, b, c, d];
            assert(o@ =~= seq![a, b, c, d]);
            Some(o)
        },
        _ => {
            assert(!(octet_of(v[0]) is Some && octet_of(v[1]) is Some && octet_of(v[2]) is Some
                && octet_of(v[3]) is Some));
            None
        },
    }
}

/// The groups written by a list of colon-separated items.
fn parse_groups(items: &Vec<Vec<char>>, v4_last: bool) -> (r: Option<Vec<u16>>)
    ensures
        match r {
            Some(g) => groups_of(views(items@), v4_last) == Some(g@),
            None => groups_of(views(items@), v4_last) is None,
        },
{
    let ghost v = views(items@);
    let n = items.len();
    let mut out: Vec<u16> = Vec::new();
    let mut i: usize = 0;
    assert(v.take(0) =~= Seq::<Seq<char>>::empty());
    while i < n
        invariant
            n == items@.len(),
            v == views(items@),
            i <= n,
            groups_of(v.take(i as int), false) == Some(out@),
        decreases n - i,
    {
        let item = &items[i];
        assert(v[i as int] == item@);
        assert(v.take(i + 1).drop_last() =~= v.take(i as int));
        assert(v.take(i + 1).last() == item@);
        match parse_group(item) {
            Some(g) => {
                out.push(g);
            },
            None => {
                if v4_last && i + 1 == n {
                    assert(v.take(i + 1) =~= v);
                    match parse_ipv4(item) {
                        Some(o) => {
                            let hi = (o[0] as u16) * 256 + (o[1] as u16);
                            let lo = (o[2] as u16) * 256 + (o[3] as u16);
                            let ghost front = out@;
                            out.push(hi);
                            out.push(lo);
                            assert(out@ =~= front + v4_groups(o@));
                            return Some(out);
                        },
                        None => {
                            return None;
                        },
                    }
                } else {
                    proof {
                        lemma_groups_prefix_none(v, i + 1, v4_last);
                    }
                    return None;
                }
            },
        }
        i = i + 1;
    }
    assert(v.take(n as int) =~= v);
    if n > 0 {
        assert(v.drop_last().take(n - 1) =~= v.drop_last());
    }
    Some(out)
}

/// The first position where `::` starts.
fn find_double_colon(s: &Vec<char>) -> (r: Option<usize>)
    ensures
        match r {
            Some(k) => double_colon_from(s@, 0) == Some(k as nat),
            None => double_colon_from(s@, 0) is None,
        },
{
    let n = s.len();
    let mut i: usize = 0;
    while n - i >= 2
        invariant
            n == s@.len(),
            i <= n,
            double_colon_from(s@, 0) == double_colon_from(s@, i as nat),
        decreases n - i,
    {
        if s[i] == ':' && s[i + 1] == ':' {
            return Some(i);
        }
        i = i + 1;
    }
    None
}

/// The characters of `s` from `lo` up to `hi`.
pub(crate) fn sub_chars(s: &Vec<char>, lo: usize, hi: usize) -> (r: Vec<char>)
    requires
        lo <= hi <= s@.len(),
    ensures
        r@ == s@.subrange(lo as int, hi as int),
{
    let mut r: Vec<char> = Vec::new();
    let mut i: usize = lo;
    while i < hi
        invariant
            lo <= i <= hi <= s@.len(),
            r@ == s@.subrange(lo as int, i as int),
        decreases hi - i,
    {
        r.push(s[i]);
        i = i + 1;
        assert(r@ =~= s@.subrange(lo as int, i as int));
    }
    r
}

/// The items of a colon-separated list, none for the empty text.
fn list_items(s: &Vec<char>) -> (r: Vec<Vec<char>>)
    ensures
        views(r@) == items_of(s@),
{
    if s.len() == 0 {
        let r: Vec<Vec<char>> = Vec::new();
        assert(views(r@) =~= Seq::<Seq<char>>::empty());
        r
    } else {
        split_chars(s, ':')
    }
}

fn eight_groups(g: &Vec<u16>) -> (r: [u16; 8])
    requires
        g@.len() == 8,
    ensures
        r@ == g@,
{
    let r = [g[0], g[1], g[2], g[3], g[4], g[5], g[6], g[7]];
    assert(r@ =~= g@);
    r
}

/// An IPv6 address in text.
fn parse_ipv6(s: &Vec<char>) -> (r: Option<[u16; 8]>)
    ensures
        match r {
            Some(g) => ipv6_of(s@) == Some(g@),
            None => ipv6_of(s@) is None,
        },
{
    match find_double_colon(s) {
        None => {
            let items = split_chars(s, ':');
            match parse_groups(&items, true) {
                Some(g) => {
                    if g.len() == 8 {
                        Some(eight_groups(&g))
                    } else {
                        None
                    }
                },
                None => None,
            }
        },
        Some(k) => {
            proof {
                lemma_double_colon_in_range(s@, 0);
            }
            let head_text = sub_chars(s, 0, k);
            let n = s.len();
            let tail_text = sub_chars(s, k + 2, n);
            assert(head_text@ =~= s@.take(k as int));
            assert(tail_text@ =~= s@.skip(k + 2));
            let head = parse_groups(&list_items(&head_text), false);
            let tail = parse_groups(&list_items(&tail_text), true);
            match (head, tail) {
                (Some(h), Some(t)) => {
                    if h.len() > 7 || t.len() > 7 - h.len() {
                        return None;
                    }
                    let ghost zeros = Seq::new(
                        (8 - h@.len() - t@.len()) as nat,
                        |i: int| 0u16,
                    );
                    let zero_count = 8 - h.len() - t.len();
                    let mut out = h;
                    let mut j: usize = 0;
                    while j < zero_count
                        invariant
                            j <= zero_count,
                            zero_count == zeros.len(),
                            forall|x: int| 0 <= x < zeros.len() ==> zeros[x] == 0u16,
                            out@ == h@ + zeros.take(j as int),
                        decreases zero_count - j,
                    {
                        assert(zeros[j as int] == 0u16);
                        out.push(0);
                        j = j + 1;
                        assert(out@ =~= h@ + zeros.take(j as int));
                    }
                    assert(zeros.take(j as int) =~= zeros);
                    let mut m: usize = 0;
                    while m < t.len()
                        invariant
                            m <= t@.len(),
                            out@ == h@ + zeros + t@.take(m as int),
                        decreases t@.len() - m,
                    {
                        out.push(t[m]);
                        m = m + 1;
                        assert(out@ =~= h@ + zeros + t@.take(m as int));
                    }
                    assert(t@.take(m as int) =~= t@);
                    Some(eight_groups(&out))
                },
                _ => None,
            }
        },
    }
}

/// Parses an IPv4 or IPv6 address written without brackets, port or
/// surrounding whitespace.
pub fn parse_ip(s: &str) -> (r: Option<IpAddress>)
    ensures
        match r {
            Some(a) => ip_of(s@) == Some(a@),
            None => ip_of(s@) is None,
        },
{
    parse_ip_chars(&chars_of(s))
}

/// Parses an IPv4 or IPv6 address given as characters.
pub fn parse_ip_chars(c: &Vec<char>) -> (r: Option<IpAddress>)
    ensures
        match r {
            Some(a) => ip_of(c@) == Some(a@),
            None => ip_of(c@) is None,
        },
{
    match parse_ipv4(c) {
        Some(o) => Some(IpAddress::V4(o)),
        None => match parse_ipv6(c) {
            Some(g) => Some(IpAddress::V6(g)),
            None => None,
        },
    }
}

} // verus!
