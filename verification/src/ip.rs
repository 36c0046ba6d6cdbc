//! IP addresses as plain values, and parsing of IP address literals.
//!
//! The grammar is the usual textual one: an IPv4 literal is four decimal
//! octets without leading zeros, joined by dots; an IPv6 literal is eight
//! 16-bit hexadecimal groups joined by colons, where at most one `::`
//! stands for a run of one or more zero groups and the last two groups
//! may be written as an embedded IPv4 quad.

use vstd::prelude::*;

use crate::text::split_on;

verus! {

/// An IP address held as plain integers: four octets for IPv4, eight
/// 16-bit groups for IPv6.
#[derive(Clone, Copy, PartialEq, Eq, Structural, Debug)]
pub enum IpAddress {
    V4(u8, u8, u8, u8),
    V6(u16, u16, u16, u16, u16, u16, u16, u16),
}

impl DeepView for IpAddress {
    type V = IpAddress;

    open spec fn deep_view(&self) -> IpAddress {
        *self
    }
}

pub open spec fn is_digit(c: char) -> bool {
    48 <= c as u32 <= 57
}

pub open spec fn digit_val(c: char) -> int {
    c as u32 - 48
}

pub open spec fn is_hex_digit(c: char) -> bool {
    is_digit(c) || 97 <= c as u32 <= 102 || 65 <= c as u32 <= 70
}

pub open spec fn hex_digit_val(c: char) -> int {
    if is_digit(c) {
        digit_val(c)
    } else if 97 <= c as u32 <= 102 {
        c as u32 - 87
    } else {
        c as u32 - 55
    }
}

/// The value of a string of decimal digits.
pub open spec fn dec_val(p: Seq<char>) -> int
    decreases p.len(),
{
    if p.len() == 0 {
        0
    } else {
        dec_val(p.drop_last()) * 10 + digit_val(p.last())
    }
}

/// The value of a string of hexadecimal digits.
pub open spec fn hex_val(p: Seq<char>) -> int
    decreases p.len(),
{
    if p.len() == 0 {
        0
    } else {
        hex_val(p.drop_last()) * 16 + hex_digit_val(p.last())
    }
}

pub open spec fn all_digits(p: Seq<char>) -> bool {
    forall|i: int| 0 <= i < p.len() ==> is_digit(#[trigger] p[i])
}

pub open spec fn all_hex_digits(p: Seq<char>) -> bool {
    forall|i: int| 0 <= i < p.len() ==> is_hex_digit(#[trigger] p[i])
}

/// A decimal octet of an IPv4 literal: one to three digits, no leading
/// zero, value at most 255.
pub open spec fn is_dec_octet(p: Seq<char>) -> bool {
    &&& 1 <= p.len() <= 3
    &&& all_digits(p)
    &&& (p.len() > 1 ==> p[0] != '0')
    &&& dec_val(p) <= 255
}

/// A 16-bit group of an IPv6 literal: one to four hexadecimal digits.
pub open spec fn is_h16(p: Seq<char>) -> bool {
    1 <= p.len() <= 4 && all_hex_digits(p)
}

/// The four octet values of an IPv4 literal, if `s` is one.
pub open spec fn ipv4_octets(s: Seq<char>) -> Option<Seq<int>> {
    let ps = split_on(s, '.');
    if ps.len() == 4 && is_dec_octet(ps[0]) && is_dec_octet(ps[1]) && is_dec_octet(ps[2])
        && is_dec_octet(ps[3]) {
        Some(seq![dec_val(ps[0]), dec_val(ps[1]), dec_val(ps[2]), dec_val(ps[3])])
    } else {
        None
    }
}

pub open spec fn parse_ipv4(s: Seq<char>) -> Option<IpAddress> {
    match ipv4_octets(s) {
        Some(o) => Some(IpAddress::V4(o[0] as u8, o[1] as u8, o[2] as u8, o[3] as u8)),
        None => None,
    }
}

pub open spec fn all_h16_parts(ps: Seq<Seq<char>>) -> bool {
    forall|i: int| 0 <= i < ps.len() ==> is_h16(#[trigger] ps[i])
}

pub open spec fn no_empty_part(ps: Seq<Seq<char>>) -> bool {
    forall|i: int| 0 <= i < ps.len() ==> (#[trigger] ps[i]).len() > 0
}

pub open spec fn h16_vals(ps: Seq<Seq<char>>) -> Seq<int> {
    ps.map_values(|p: Seq<char>| hex_val(p))
}

pub open spec fn zero_groups(n: int) -> Seq<int> {
    Seq::new(n as nat, |i: int| 0)
}

/// The group values of a run of colon-separated parts that may end in an
/// embedded IPv4 quad, which stands for the last two groups.
pub open spec fn tail_groups(ps: Seq<Seq<char>>) -> Option<Seq<int>> {
    if all_h16_parts(ps) {
        Some(h16_vals(ps))
    } else if ps.len() >= 1 && all_h16_parts(ps.drop_last()) && ipv4_octets(ps.last()) is Some {
        let o = ipv4_octets(ps.last())->0;
        Some(h16_vals(ps.drop_last()) + seq![o[0] * 256 + o[1], o[2] * 256 + o[3]])
    } else {
        None
    }
}

/// The index of the first empty part, or the length if none is empty.
pub open spec fn first_empty_idx(ps: Seq<Seq<char>>) -> int
    decreases ps.len(),
{
    if ps.len() == 0 {
        0
    } else if ps[0].len() == 0 {
        0
    } else {
        1 + first_empty_idx(ps.drop_first())
    }
}

/// The eight group values of an IPv6 literal, if `s` is one. The cases
/// follow the positions a `::` can take: none, the whole address, the
/// start, the end, or the middle.
pub open spec fn ipv6_groups(s: Seq<char>) -> Option<Seq<int>> {
    let ps = split_on(s, ':');
    let n = ps.len() as int;
    if no_empty_part(ps) {
        match tail_groups(ps) {
            Some(g) => if g.len() == 8 {
                Some(g)
            } else {
                None
            },
            None => None,
        }
    } else if n == 3 && ps[0].len() == 0 && ps[1].len() == 0 && ps[2].len() == 0 {
        Some(zero_groups(8))
    } else if n >= 3 && ps[0].len() == 0 && ps[1].len() == 0 && no_empty_part(ps.skip(2)) {
        match tail_groups(ps.skip(2)) {
            Some(g) => if g.len() <= 7 {
                Some(zero_groups(8 - g.len()) + g)
            } else {
                None
            },
            None => None,
        }
    } else if n >= 3 && ps[n - 1].len() == 0 && ps[n - 2].len() == 0 && no_empty_part(
        ps.take(n - 2),
    ) {
        if all_h16_parts(ps.take(n - 2)) && n - 2 <= 7 {
            Some(h16_vals(ps.take(n - 2)) + zero_groups(8 - (n - 2)))
        } else {
            None
        }
    } else {
        let p = first_empty_idx(ps);
        if 0 < p < n - 1 && no_empty_part(ps.skip(p + 1)) && all_h16_parts(ps.take(p)) {
            match tail_groups(ps.skip(p + 1)) {
                Some(g) => if p + g.len() <= 7 {
                    Some(h16_vals(ps.take(p)) + zero_groups(8 - p - g.len()) + g)
                } else {
                    None
                },
                None => None,
            }
        } else {
            None
        }
    }
}

pub open spec fn parse_ipv6(s: Seq<char>) -> Option<IpAddress> {
    match ipv6_groups(s) {
        Some(g) => Some(
            IpAddress::V6(
                g[0] as u16,
                g[1] as u16,
                g[2] as u16,
                g[3] as u16,
                g[4] as u16,
                g[5] as u16,
                g[6] as u16,
                g[7] as u16,
            ),
        ),
        None => None,
    }
}

/// What an IP address literal denotes: an IPv4 literal, else an IPv6
/// literal, else nothing.
pub open spec fn parse_ip_spec(s: Seq<char>) -> Option<IpAddress> {
    if parse_ipv4(s) is Some {
        parse_ipv4(s)
    } else {
        parse_ipv6(s)
    }
}

proof fn lemma_dec_val_bound(p: Seq<char>)
    requires
        all_digits(p),
    ensures
        0 <= dec_val(p),
        p.len() <= 1 ==> dec_val(p) <= 9,
        p.len() <= 2 ==> dec_val(p) <= 99,
        p.len() <= 3 ==> dec_val(p) <= 999,
    decreases p.len(),
{
    if p.len() > 0 {
        assert(all_digits(p.drop_last())) by {
            assert(forall|i: int|
                0 <= i < p.len() - 1 ==> is_digit(#[trigger] p.drop_last()[i]) == is_digit(p[i]));
        }
        lemma_dec_val_bound(p.drop_last());
    }
}

proof fn lemma_hex_val_bound(p: Seq<char>)
    requires
        all_hex_digits(p),
    ensures
        0 <= hex_val(p),
        p.len() <= 1 ==> hex_val(p) <= 0xf,
        p.len() <= 2 ==> hex_val(p) <= 0xff,
        p.len() <= 3 ==> hex_val(p) <= 0xfff,
        p.len() <= 4 ==> hex_val(p) <= 0xffff,
    decreases p.len(),
{
    if p.len() > 0 {
        assert(all_hex_digits(p.drop_last())) by {
            assert(forall|i: int|
                0 <= i < p.len() - 1 ==> is_hex_digit(#[trigger] p.drop_last()[i]) == is_hex_digit(
                    p[i],
                ));
        }
        lemma_hex_val_bound(p.drop_last());
    }
}

fn digit_of(c: char) -> (r: Option<u8>)
    ensures
        r is Some <==> is_digit(c),
        r is Some ==> r->0 as int == digit_val(c),
{
    let u = c as u32;
    if 48 <= u && u <= 57 {
        Some((u - 48) as u8)
    } else {
        None
    }
}

fn hex_digit_of(c: char) -> (r: Option<u8>)
    ensures
        r is Some <==> is_hex_digit(c),
        r is Some ==> r->0 as int == hex_digit_val(c),
{
    let u = c as u32;
    if 48 <= u && u <= 57 {
        Some((u - 48) as u8)
    } else if 97 <= u && u <= 102 {
        Some((u - 87) as u8)
    } else if 65 <= u && u <= 70 {
        Some((u - 55) as u8)
    } else {
        None
    }
}

/// Parse one decimal octet of an IPv4 literal.
fn parse_dec_octet(p: &str) -> (r: Option<u8>)
    ensures
        r is Some <==> is_dec_octet(p@),
        r is Some ==> r->0 as int == dec_val(p@),
{
    let n = p.unicode_len();
    if n < 1 || n > 3 {
        return None;
    }
    if n > 1 && p.get_char(0) == '0' {
        return None;
    }
    let mut acc: u32 = 0;
    let mut i: usize = 0;
    while i < n
        invariant
            n == p@.len(),
            1 <= n <= 3,
            i <= n,
            all_digits(p@.take(i as int)),
            acc as int == dec_val(p@.take(i as int)),
            acc <= 999,
        decreases n - i,
    {
        let c = p.get_char(i);
        match digit_of(c) {
            Some(d) => {
                proof {
                    assert(p@.take(i + 1 as int).drop_last() =~= p@.take(i as int));
                    assert(all_digits(p@.take(i + 1 as int)));
                    lemma_dec_val_bound(p@.take(i + 1 as int));
                }
                acc = acc * 10 + d as u32;
                i += 1;
            },
            None => {
                return None;
            },
        }
    }
    proof {
        assert(p@.take(n as int) =~= p@);
    }
    if acc > 255 {
        return None;
    }
    Some(acc as u8)
}

/// Parse one hexadecimal group of an IPv6 literal.
fn parse_h16(p: &str) -> (r: Option<u16>)
    ensures
        r is Some <==> is_h16(p@),
        r is Some ==> r->0 as int == hex_val(p@),
{
    let n = p.unicode_len();
    if n < 1 || n > 4 {
        return None;
    }
    let mut acc: u16 = 0;
    let mut i: usize = 0;
    while i < n
        invariant
            n == p@.len(),
            1 <= n <= 4,
            i <= n,
            all_hex_digits(p@.take(i as int)),
            acc as int == hex_val(p@.take(i as int)),
            acc as int <= 0xffff,
            i < n ==> acc as int <= 0xfff,
        decreases n - i,
    {
        let c = p.get_char(i);
        match hex_digit_of(c) {
            Some(d) => {
                proof {
                    assert(p@.take(i + 1 as int).drop_last() =~= p@.take(i as int));
                    assert(all_hex_digits(p@.take(i + 1 as int)));
                    lemma_hex_val_bound(p@.take(i + 1 as int));
                    lemma_hex_val_bound(p@.take(i as int));
                }
                acc = acc * 16 + d as u16;
                i += 1;
            },
            None => {
                return None;
            },
        }
    }
    proof {
        assert(p@.take(n as int) =~= p@);
    }
    Some(acc)
}

/// Parse an IPv4 literal.
fn parse_ipv4_str(s: &str) -> (r: Option<IpAddress>)
    ensures
        r == parse_ipv4(s@),
{
    let parts = crate::text::split_char(s, '.');
    let ghost ps = split_on(s@, '.');
    if parts.len() != 4 {
        return None;
    }
    proof {
        assert(parts.deep_view()[0] == parts[0]@);
        assert(parts.deep_view()[1] == parts[1]@);
        assert(parts.deep_view()[2] == parts[2]@);
        assert(parts.deep_view()[3] == parts[3]@);
    }
    let o0 = match parse_dec_octet(parts[0].as_str()) {
        Some(v) => v,
        None => {
            return None;
        },
    };
    let o1 = match parse_dec_octet(parts[1].as_str()) {
        Some(v) => v,
        None => {
            return None;
        },
    };
    let o2 = match parse_dec_octet(parts[2].as_str()) {
        Some(v) => v,
        None => {
            return None;
        },
    };
    let o3 = match parse_dec_octet(parts[3].as_str()) {
        Some(v) => v,
        None => {
            return None;
        },
    };
    Some(IpAddress::V4(o0, o1, o2, o3))
}

proof fn lemma_ipv4_octets_bounds(s: Seq<char>)
    requires
        ipv4_octets(s) is Some,
    ensures
        ipv4_octets(s)->0.len() == 4,
        forall|i: int| 0 <= i < 4 ==> 0 <= #[trigger] ipv4_octets(s)->0[i] <= 255,
{
    let ps = split_on(s, '.');
    lemma_dec_val_bound(ps[0]);
    lemma_dec_val_bound(ps[1]);
    lemma_dec_val_bound(ps[2]);
    lemma_dec_val_bound(ps[3]);
}

proof fn lemma_first_empty_idx(ps: Seq<Seq<char>>)
    ensures
        0 <= first_empty_idx(ps) <= ps.len(),
        forall|k: int| 0 <= k < first_empty_idx(ps) ==> (#[trigger] ps[k]).len() > 0,
        first_empty_idx(ps) < ps.len() ==> ps[first_empty_idx(ps)].len() == 0,
    decreases ps.len(),
{
    if ps.len() > 0 && ps[0].len() > 0 {
        lemma_first_empty_idx(ps.drop_first());
        assert(forall|k: int|
            1 <= k < first_empty_idx(ps) ==> (#[trigger] ps[k]) == ps.drop_first()[k - 1]);
    }
}

/// Parse the parts in `[from, to)` as hexadecimal groups.
fn parse_h16_range(parts: &Vec<String>, from: usize, to: usize) -> (r: Option<Vec<u16>>)
    requires
        from <= to <= parts.len(),
    ensures
        ({
            let sub = parts.deep_view().subrange(from as int, to as int);
            &&& (r is Some <==> all_h16_parts(sub))
            &&& (r is Some ==> r->0@.len() == sub.len() && (forall|j: int|
                0 <= j < sub.len() ==> #[trigger] r->0@[j] as int == hex_val(sub[j])))
        }),
{
    let ghost sub = parts.deep_view().subrange(from as int, to as int);
    let mut g: Vec<u16> = Vec::new();
    let mut i: usize = from;
    while i < to
        invariant
            from <= i <= to <= parts.len(),
            sub == parts.deep_view().subrange(from as int, to as int),
            g@.len() == i - from,
            forall|j: int| 0 <= j < i - from ==> is_h16(#[trigger] sub[j]),
            forall|j: int| 0 <= j < i - from ==> #[trigger] g@[j] as int == hex_val(sub[j]),
        decreases to - i,
    {
        proof {
            assert(sub[i - from] == parts.deep_view()[i as int]);
            assert(parts.deep_view()[i as int] == parts[i as int]@);
        }
        match parse_h16(parts[i].as_str()) {
            Some(v) => {
                g.push(v);
            },
            None => {
                proof {
                    assert(!is_h16(sub[i - from]));
                }
                return None;
            },
        }
        i += 1;
    }
    Some(g)
}

/// Parse the parts in `[from, to)` as the groups after a `::`, or as a
/// full address body: hexadecimal groups, the last possibly an embedded
/// IPv4 quad.
fn parse_tail_range(parts: &Vec<String>, from: usize, to: usize) -> (r: Option<Vec<u16>>)
    requires
        from <= to <= parts.len(),
    ensures
        ({
            let sub = parts.deep_view().subrange(from as int, to as int);
            &&& (r is Some <==> tail_groups(sub) is Some)
            &&& (r is Some ==> r->0@.len() == tail_groups(sub)->0.len() && (forall|j: int|
                0 <= j < tail_groups(sub)->0.len() ==> #[trigger] r->0@[j] as int == tail_groups(
                    sub,
                )->0[j]))
        }),
{
    let ghost sub = parts.deep_view().subrange(from as int, to as int);
    if from == to {
        let g: Vec<u16> = Vec::new();
        proof {
            assert(all_h16_parts(sub));
            assert(tail_groups(sub) == Some(h16_vals(sub)));
            assert(h16_vals(sub).len() == 0);
        }
        return Some(g);
    }
    let mut g: Vec<u16> = Vec::new();
    let mut i: usize = from;
    while i < to - 1
        invariant
            from <= i <= to - 1,
            to <= parts.len(),
            sub == parts.deep_view().subrange(from as int, to as int),
            g@.len() == i - from,
            forall|j: int| 0 <= j < i - from ==> is_h16(#[trigger] sub[j]),
            forall|j: int| 0 <= j < i - from ==> #[trigger] g@[j] as int == hex_val(sub[j]),
        decreases to - i,
    {
        proof {
            assert(sub[i - from] == parts.deep_view()[i as int]);
            assert(parts.deep_view()[i as int] == parts[i as int]@);
        }
        match parse_h16(parts[i].as_str()) {
            Some(v) => {
                g.push(v);
            },
            None => {
                proof {
                    let j = i - from;
                    assert(!is_h16(sub[j]));
                    assert(sub.drop_last()[j] == sub[j]);
                    assert(!all_h16_parts(sub));
                    assert(!all_h16_parts(sub.drop_last()));
                }
                return None;
            },
        }
        i += 1;
    }
    proof {
        assert(sub[to - 1 - from] == parts.deep_view()[to - 1]);
        assert(parts.deep_view()[to - 1] == parts[to as int - 1]@);
        assert(sub.last() == parts[to as int - 1]@);
        assert(forall|j: int|
            0 <= j < sub.len() - 1 ==> #[trigger] sub.drop_last()[j] == sub[j]);
    }
    match parse_h16(parts[to - 1].as_str()) {
        Some(v) => {
            g.push(v);
            proof {
                assert(all_h16_parts(sub));
                assert(tail_groups(sub) == Some(h16_vals(sub)));
                assert(forall|j: int|
                    0 <= j < sub.len() ==> #[trigger] h16_vals(sub)[j] == hex_val(sub[j]));
            }
            Some(g)
        },
        None => {
            match parse_ipv4_str(parts[to - 1].as_str()) {
                Some(ip) => {
                    match ip {
                        IpAddress::V4(a, b, c, d) => {
                            proof {
                                assert(!is_h16(sub.last()));
                                assert(!all_h16_parts(sub));
                                assert(all_h16_parts(sub.drop_last()));
                                assert(ipv4_octets(sub.last()) is Some);
                                lemma_ipv4_octets_bounds(sub.last());
                            }
                            let g0 = (a as u16) * 256 + (b as u16);
                            let g1 = (c as u16) * 256 + (d as u16);
                            g.push(g0);
                            g.push(g1);
                            proof {
                                let o = ipv4_octets(sub.last())->0;
                                let gs = h16_vals(sub.drop_last()) + seq![
                                    o[0] * 256 + o[1],
                                    o[2] * 256 + o[3],
                                ];
                                assert(tail_groups(sub) == Some(gs));
                                assert(forall|j: int|
                                    0 <= j < sub.len() - 1 ==> #[trigger] h16_vals(
                                        sub.drop_last(),
                                    )[j] == hex_val(sub.drop_last()[j]));
                                assert(a as int == o[0] && b as int == o[1] && c as int == o[2]
                                    && d as int == o[3]);
                                assert(g@.len() == gs.len());
                                assert(forall|j: int|
                                    0 <= j < gs.len() ==> #[trigger] g@[j] as int == gs[j]);
                            }
                            Some(g)
                        },
                        IpAddress::V6(..) => {
                            proof {
                                assert(false);
                            }
                            None
                        },
                    }
                },
                None => {
                    proof {
                        assert(!is_h16(sub.last()));
                        assert(!all_h16_parts(sub));
                        assert(ipv4_octets(sub.last()) is None);
                    }
                    None
                },
            }
        },
    }
}

/// True when no part in `[from, to)` is empty.
fn no_empty_in(parts: &Vec<String>, from: usize, to: usize) -> (r: bool)
    requires
        from <= to <= parts.len(),
    ensures
        r == no_empty_part(parts.deep_view().subrange(from as int, to as int)),
{
    let ghost sub = parts.deep_view().subrange(from as int, to as int);
    let mut i: usize = from;
    while i < to
        invariant
            from <= i <= to <= parts.len(),
            sub == parts.deep_view().subrange(from as int, to as int),
            forall|j: int| 0 <= j < i - from ==> (#[trigger] sub[j]).len() > 0,
        decreases to - i,
    {
        proof {
            assert(sub[i - from] == parts.deep_view()[i as int]);
            assert(parts.deep_view()[i as int] == parts[i as int]@);
        }
        if parts[i].as_str().is_empty() {
            proof {
                assert(sub[i - from].len() == 0);
            }
            return false;
        }
        i += 1;
    }
    true
}

/// Turn eight parsed groups into an address value.
fn groups_to_ip(g: &Vec<u16>) -> (r: IpAddress)
    requires
        g.len() == 8,
    ensures
        r == IpAddress::V6(g@[0], g@[1], g@[2], g@[3], g@[4], g@[5], g@[6], g@[7]),
{
    IpAddress::V6(g[0], g[1], g[2], g[3], g[4], g[5], g[6], g[7])
}

/// Parse an IPv6 literal.
fn parse_ipv6_str(s: &str) -> (r: Option<IpAddress>)
    ensures
        r == parse_ipv6(s@),
{
    let parts = crate::text::split_char(s, ':');
    let ghost ps = split_on(s@, ':');
    let n = parts.len();
    proof {
        assert(ps.subrange(0, n as int) =~= ps);
    }
    // Find the first empty part.
    let mut fe: usize = n;
    let mut i: usize = 0;
    while i < n
        invariant
            n == parts.len(),
            fe == n,
            ps == parts.deep_view(),
            i <= n,
            forall|k: int| 0 <= k < i ==> (#[trigger] ps[k]).len() > 0,
        ensures
            i <= n,
            forall|k: int| 0 <= k < i ==> (#[trigger] ps[k]).len() > 0,
            i < n ==> ps[i as int].len() == 0,
        decreases n - i,
    {
        proof {
            assert(ps[i as int] == parts[i as int]@);
        }
        if parts[i].as_str().is_empty() {
            break;
        }
        i += 1;
    }
    fe = i;
    proof {
        lemma_first_empty_idx(ps);
        let p = first_empty_idx(ps);
        if p < fe {
            assert(ps[p].len() > 0);
            assert(false);
        }
        if fe < p {
            assert(ps[fe as int].len() > 0);
            assert(false);
        }
        assert(fe == first_empty_idx(ps));
    }
    proof {
        assert(forall|k: int| 0 <= k < n ==> #[trigger] ps[k] == parts[k]@);
        if n >= 2 {
            assert(ps.skip(2) =~= ps.subrange(2, n as int));
            assert(ps.take(n - 2) =~= ps.subrange(0, n - 2));
        }
        if fe < n {
            assert(ps.skip(fe + 1) =~= ps.subrange(fe + 1 as int, n as int));
            assert(ps.take(fe as int) =~= ps.subrange(0, fe as int));
        }
    }
    if fe == n {
        // No `::` anywhere: eight groups, or six and an IPv4 quad.
        proof {
            assert(no_empty_part(ps));
        }
        match parse_tail_range(&parts, 0, n) {
            Some(g) => {
                if g.len() == 8 {
                    Some(groups_to_ip(&g))
                } else {
                    None
                }
            },
            None => None,
        }
    } else if n == 3 && fe == 0 && {
        let e = parts[1].as_str().is_empty();
        e
    } && {
        let e = parts[2].as_str().is_empty();
        e
    } {
        // The whole address is `::`.
        let mut g: Vec<u16> = Vec::new();
        let mut k: usize = 0;
        while k < 8
            invariant
                k <= 8,
                g@.len() == k,
                forall|j: int| 0 <= j < k ==> #[trigger] g@[j] == 0,
            decreases 8 - k,
        {
            g.push(0u16);
            k += 1;
        }
        proof {
            assert(ipv6_groups(s@) == Some(zero_groups(8)));
            assert(forall|j: int| 0 <= j < 8 ==> #[trigger] zero_groups(8)[j] == 0);
        }
        Some(groups_to_ip(&g))
    } else if n >= 3 && fe == 0 && {
        let e = parts[1].as_str().is_empty();
        e
    } && no_empty_in(&parts, 2, n) {
        // Leading `::`.
        proof {
            assert(ps[1] == parts[1]@);
            assert(ps.skip(2) =~= ps.subrange(2, n as int));
        }
        match parse_tail_range(&parts, 2, n) {
            Some(g) => {
                if g.len() <= 7 {
                    let ghost tg = tail_groups(ps.skip(2))->0;
                    let mut out: Vec<u16> = Vec::new();
                    let zn = 8 - g.len();
                    let mut k: usize = 0;
                    while k < zn
                        invariant
                            k <= zn,
                            out@.len() == k,
                            forall|j: int| 0 <= j < k ==> #[trigger] out@[j] == 0,
                        decreases zn - k,
                    {
                        out.push(0u16);
                        k += 1;
                    }
                    let mut m: usize = 0;
                    while m < g.len()
                        invariant
                            m <= g@.len(),
                            zn == 8 - g@.len(),
                            out@.len() == zn + m,
                            forall|j: int| 0 <= j < zn ==> #[trigger] out@[j] == 0,
                            forall|j: int| zn <= j < zn + m ==> #[trigger] out@[j] == g@[j - zn],
                        decreases g@.len() - m,
                    {
                        let v = g[m];
                        out.push(v);
                        m += 1;
                    }
                    proof {
                        let gs = zero_groups(8 - tg.len()) + tg;
                        assert(ipv6_groups(s@) == Some(gs));
                        assert(out@.len() == 8);
                        assert(forall|j: int| 0 <= j < 8 ==> #[trigger] out@[j] as int == gs[j]);
                    }
                    Some(groups_to_ip(&out))
                } else {
                    None
                }
            },
            None => None,
        }
    } else if n >= 3 && {
        let e1 = parts[n - 1].as_str().is_empty();
        let e2 = parts[n - 2].as_str().is_empty();
        e1 && e2
    } && no_empty_in(&parts, 0, n - 2) {
        // Trailing `::`.
        proof {
            assert(ps[n - 1] == parts[n as int - 1]@);
            assert(ps[n - 2] == parts[n as int - 2]@);
            assert(ps.take(n - 2) =~= ps.subrange(0, n - 2));
        }
        if n - 2 <= 7 {
            match parse_h16_range(&parts, 0, n - 2) {
                Some(g) => {
                    let ghost fg = h16_vals(ps.take(n - 2));
                    let mut out: Vec<u16> = Vec::new();
                    let gl = g.len();
                    let mut m: usize = 0;
                    while m < gl
                        invariant
                            m <= gl,
                            gl == g@.len(),
                            out@.len() == m,
                            forall|j: int| 0 <= j < m ==> #[trigger] out@[j] == g@[j],
                        decreases gl - m,
                    {
                        let v = g[m];
                        out.push(v);
                        m += 1;
                    }
                    let mut k: usize = 0;
                    let zn = 8 - gl;
                    while k < zn
                        invariant
                            k <= zn,
                            zn == 8 - gl,
                            gl == g@.len(),
                            out@.len() == gl + k,
                            forall|j: int| 0 <= j < gl ==> #[trigger] out@[j] == g@[j],
                            forall|j: int| gl <= j < gl + k ==> #[trigger] out@[j] == 0,
                        decreases zn - k,
                    {
                        out.push(0u16);
                        k += 1;
                    }
                    proof {
                        let gs = fg + zero_groups(8 - (n - 2));
                        assert(ipv6_groups(s@) == Some(gs));
                        assert(out@.len() == 8);
                        assert(forall|j: int| 0 <= j < 8 ==> #[trigger] out@[j] as int == gs[j]);
                    }
                    Some(groups_to_ip(&out))
                },
                None => None,
            }
        } else {
            None
        }
    } else {
        // A `::` in the middle.
        if 0 < fe && fe < n && fe + 1 < n && no_empty_in(&parts, fe + 1, n) {
            proof {
                assert(ps.take(fe as int) =~= ps.subrange(0, fe as int));
                assert(ps.skip(fe + 1) =~= ps.subrange(fe + 1 as int, n as int));
            }
            match parse_h16_range(&parts, 0, fe) {
                Some(front) => {
                    match parse_tail_range(&parts, fe + 1, n) {
                        Some(back) => {
                            if front.len() + back.len() <= 7 {
                                let ghost tg = tail_groups(ps.skip(fe + 1))->0;
                                let mut out: Vec<u16> = Vec::new();
                                let fl = front.len();
                                let bl = back.len();
                                let mut m: usize = 0;
                                while m < fl
                                    invariant
                                        m <= fl,
                                        fl == front@.len(),
                                        out@.len() == m,
                                        forall|j: int|
                                            0 <= j < m ==> #[trigger] out@[j] == front@[j],
                                    decreases fl - m,
                                {
                                    let v = front[m];
                                    out.push(v);
                                    m += 1;
                                }
                                let zn = 8 - fl - bl;
                                let mut k: usize = 0;
                                while k < zn
                                    invariant
                                        k <= zn,
                                        fl == front@.len(),
                                        out@.len() == fl + k,
                                        forall|j: int|
                                            0 <= j < fl ==> #[trigger] out@[j] == front@[j],
                                        forall|j: int| fl <= j < fl + k ==> #[trigger] out@[j] == 0,
                                    decreases zn - k,
                                {
                                    out.push(0u16);
                                    k += 1;
                                }
                                let mut b: usize = 0;
                                while b < bl
                                    invariant
                                        b <= bl,
                                        fl == front@.len(),
                                        bl == back@.len(),
                                        zn == 8 - fl - bl,
                                        out@.len() == fl + zn + b,
                                        forall|j: int|
                                            0 <= j < fl ==> #[trigger] out@[j] == front@[j],
                                        forall|j: int|
                                            fl <= j < fl + zn ==> #[trigger] out@[j] == 0,
                                        forall|j: int|
                                            fl + zn <= j < fl + zn + b ==> #[trigger] out@[j]
                                                == back@[j - fl - zn],
                                    decreases bl - b,
                                {
                                    let v = back[b];
                                    out.push(v);
                                    b += 1;
                                }
                                proof {
                                    let fg = h16_vals(ps.take(fe as int));
                                    let gs = fg + zero_groups(8 - fe - tg.len()) + tg;
                                    assert(ipv6_groups(s@) == Some(gs));
                                    assert(out@.len() == 8);
                                    assert(forall|j: int|
                                        0 <= j < 8 ==> #[trigger] out@[j] as int == gs[j]);
                                }
                                Some(groups_to_ip(&out))
                            } else {
                                None
                            }
                        },
                        None => None,
                    }
                },
                None => None,
            }
        } else {
            proof {
                assert(ipv6_groups(s@) is None);
            }
            None
        }
    }
}

/// Parse an IP address literal, IPv4 or IPv6.
pub fn parse_ip(s: &str) -> (r: Option<IpAddress>)
    ensures
        r == parse_ip_spec(s@),
{
    match parse_ipv4_str(s) {
        Some(ip) => Some(ip),
        None => parse_ipv6_str(s),
    }
}

} // verus!
