use vstd::prelude::*;
use vstd::string::*;

use crate::address::{Ipv4Addr, ipv4_of, parse_ipv4};

verus! {

/// An IPv6 address, as its eight 16-bit segments in network order.
#[derive(Clone, Copy, Debug, PartialEq, Eq, Structural)]
pub struct Ipv6Addr {
    pub s0: u16,
    pub s1: u16,
    pub s2: u16,
    pub s3: u16,
    pub s4: u16,
    pub s5: u16,
    pub s6: u16,
    pub s7: u16,
}

impl Ipv6Addr {
    /// The eight segments, first to last.
    pub open spec fn segs(self) -> Seq<u16> {
        seq![self.s0, self.s1, self.s2, self.s3, self.s4, self.s5, self.s6, self.s7]
    }

    /// The address with these eight segments.
    pub open spec fn from_segs(g: Seq<u16>) -> Ipv6Addr
        recommends
            g.len() == 8,
    {
        Ipv6Addr { s0: g[0], s1: g[1], s2: g[2], s3: g[3], s4: g[4], s5: g[5], s6: g[6], s7: g[7] }
    }

    pub fn segments(&self) -> (r: [u16; 8])
        ensures
            r@ == self.segs(),
    {
        let r = [self.s0, self.s1, self.s2, self.s3, self.s4, self.s5, self.s6, self.s7];
        assert(r@ =~= self.segs());
        r
    }
}

/// The value of a hexadecimal digit, either case.
pub open spec fn hex_digit_value(c: char) -> Option<nat> {
    if '0' <= c && c <= '9' {
        Some(((c as nat) - ('0' as nat)) as nat)
    } else if 'a' <= c && c <= 'f' {
        Some(((c as nat) - ('a' as nat) + 10) as nat)
    } else if 'A' <= c && c <= 'F' {
        Some(((c as nat) - ('A' as nat) + 10) as nat)
    } else {
        None
    }
}

/// The number that the hexadecimal digits `t` stand for.
pub open spec fn hex_value(t: Seq<char>) -> nat
    decreases t.len(),
{
    if t.len() == 0 {
        0
    } else {
        hex_value(t.drop_last()) * 16 + match hex_digit_value(t.last()) {
            Some(d) => d,
            None => 0,
        }
    }
}

pub open spec fn pow16(k: nat) -> nat
    decreases k,
{
    if k == 0 {
        1
    } else {
        16 * pow16((k - 1) as nat)
    }
}

/// A group of an IPv6 address: one to four hexadecimal digits.
pub open spec fn hex_group(t: Seq<char>) -> Option<u16> {
    if 1 <= t.len() <= 4 && forall|k: int| 0 <= k < t.len() ==> (#[trigger] hex_digit_value(t[k])) is Some {
        Some(hex_value(t) as u16)
    } else {
        None
    }
}

fn hex_digit(c: char) -> (r: Option<u32>)
    ensures
        match r {
            Some(d) => hex_digit_value(c) == Some(d as nat) && d < 16,
            None => hex_digit_value(c) is None,
        },
{
    if '0' <= c && c <= '9' {
        Some(c as u32 - '0' as u32)
    } else if 'a' <= c && c <= 'f' {
        Some(c as u32 - 'a' as u32 + 10)
    } else if 'A' <= c && c <= 'F' {
        Some(c as u32 - 'A' as u32 + 10)
    } else {
        None
    }
}

/// Reads the group `s@[start..end]`.
fn parse_hex_group(s: &str, start: usize, end: usize) -> (r: Option<u16>)
    requires
        start <= end <= s@.len(),
    ensures
        r == hex_group(s@.subrange(start as int, end as int)),
{
    let ghost t = s@.subrange(start as int, end as int);
    if end - start < 1 || end - start > 4 {
        return None;
    }
    let mut value: u32 = 0;
    let mut i: usize = start;
    while i < end
        invariant
            start <= i <= end <= s@.len(),
            end - start <= 4,
            t == s@.subrange(start as int, end as int),
            forall|k: int| 0 <= k < i - start ==> (#[trigger] hex_digit_value(t[k])) is Some,
            value as nat == hex_value(t.subrange(0, i - start)),
            value < pow16((i - start) as nat),
            pow16((i - start) as nat) <= 65536,
        decreases end - i,
    {
        let d = match hex_digit(s.get_char(i)) {
            Some(d) => d,
            None => {
                assert(t[i - start] == s@[i as int]);
                return None;
            },
        };
        let ghost prev = t.subrange(0, i - start);
        assert(t.subrange(0, i + 1 - start).drop_last() =~= prev);
        assert(t[i - start] == s@[i as int]);
        proof {
            reveal_with_fuel(pow16, 5);
        }
        value = value * 16 + d;
        i = i + 1;
    }
    assert(t.subrange(0, end - start) =~= t);
    Some(value as u16)
}

/// The pieces of `s` between colons, first to last; no colon gives one
/// piece, the whole of `s`.
pub open spec fn split_colons(s: Seq<char>) -> Seq<Seq<char>>
    decreases s.len(),
{
    if s.len() == 0 {
        seq![Seq::empty()]
    } else {
        let prev = split_colons(s.drop_last());
        if s.last() == ':' {
            prev.push(Seq::empty())
        } else {
            prev.update(prev.len() - 1, prev.last().push(s.last()))
        }
    }
}

proof fn lemma_split_colons_len(s: Seq<char>)
    ensures
        split_colons(s).len() >= 1,
    decreases s.len(),
{
    if s.len() > 0 {
        lemma_split_colons_len(s.drop_last());
    }
}

/// The groups that the pieces `ps` read as, each one to four hex digits.
pub open spec fn hex_groups(ps: Seq<Seq<char>>) -> Option<Seq<u16>>
    decreases ps.len(),
{
    if ps.len() == 0 {
        Some(Seq::empty())
    } else {
        match (hex_groups(ps.drop_last()), hex_group(ps.last())) {
            (Some(g), Some(x)) => Some(g.push(x)),
            _ => None,
        }
    }
}

/// The two segments that an IPv4 address fills at the end of an IPv6
/// address.
pub open spec fn v4_segments(ip: Ipv4Addr) -> Seq<u16> {
    seq![(ip.a * 256 + ip.b) as u16, (ip.c * 256 + ip.d) as u16]
}

/// The segments that `t` lists: hex groups separated by single colons, of
/// which the last may be an IPv4 address in dotted-quad form where
/// `allow_v4` holds; the empty text lists none.
pub open spec fn groups_of(t: Seq<char>, allow_v4: bool) -> Option<Seq<u16>> {
    if t.len() == 0 {
        Some(Seq::empty())
    } else {
        let ps = split_colons(t);
        match hex_groups(ps.drop_last()) {
            None => None,
            Some(init) => match hex_group(ps.last()) {
                Some(x) => Some(init.push(x)),
                None => if allow_v4 {
                    match ipv4_of(ps.last()) {
                        Some(ip) => Some(init + v4_segments(ip)),
                        None => None,
                    }
                } else {
                    None
                },
            },
        }
    }
}

pub open spec fn opt_vec_view(r: Option<Vec<u16>>) -> Option<Seq<u16>> {
    match r {
        Some(v) => Some(v@),
        None => None,
    }
}

/// Reads the segments that `s@[start..end]` lists.
fn parse_groups(s: &str, start: usize, end: usize, allow_v4: bool) -> (r: Option<Vec<u16>>)
    requires
        start <= end <= s@.len(),
    ensures
        opt_vec_view(r) == groups_of(s@.subrange(start as int, end as int), allow_v4),
{
    let ghost t = s@.subrange(start as int, end as int);
    if start == end {
        return Some(Vec::new());
    }
    let mut groups: Vec<u16> = Vec::new();
    let mut ok = true;
    let mut piece_start: usize = start;
    let mut i: usize = start;
    assert(s@.subrange(start as int, start as int) =~= Seq::<char>::empty());
    while i < end
        invariant
            start <= piece_start <= i <= end <= s@.len(),
            split_colons(s@.subrange(start as int, i as int)).last() == s@.subrange(
                piece_start as int,
                i as int,
            ),
            hex_groups(split_colons(s@.subrange(start as int, i as int)).drop_last()) == (if ok {
                Some(groups@)
            } else {
                None
            }),
        decreases end - i,
    {
        let ghost u = s@.subrange(start as int, i as int);
        let ghost u2 = s@.subrange(start as int, i + 1);
        proof {
            lemma_split_colons_len(u);
            assert(u2.drop_last() =~= u);
            assert(u2.last() == s@[i as int]);
        }
        let c = s.get_char(i);
        if c == ':' {
            assert(split_colons(u2).drop_last() =~= split_colons(u));
            assert(split_colons(u).drop_last().push(split_colons(u).last()) =~= split_colons(u));
            let g = parse_hex_group(s, piece_start, i);
            match g {
                Some(x) => {
                    if ok {
                        groups.push(x);
                    }
                },
                None => {
                    ok = false;
                },
            }
            piece_start = i + 1;
            assert(s@.subrange(piece_start as int, i + 1) =~= Seq::<char>::empty());
        } else {
            assert(split_colons(u2).drop_last() =~= split_colons(u).drop_last());
            assert(s@.subrange(piece_start as int, i + 1) =~= s@.subrange(
                piece_start as int,
                i as int,
            ).push(c));
        }
        i = i + 1;
    }
    assert(s@.subrange(start as int, end as int) == t);
    if !ok {
        return None;
    }
    match parse_hex_group(s, piece_start, end) {
        Some(x) => {
            groups.push(x);
            return Some(groups);
        },
        None => {},
    }
    if !allow_v4 {
        return None;
    }
    let piece = s.substring_char(piece_start, end);
    match parse_ipv4(piece) {
        Some(ip) => {
            groups.push((ip.a as u16) * 256 + ip.b as u16);
            groups.push((ip.c as u16) * 256 + ip.d as u16);
            Some(groups)
        },
        None => None,
    }
}

pub open spec fn is_double_colon_at(s: Seq<char>, p: int) -> bool {
    0 <= p && p + 1 < s.len() && s[p] == ':' && s[p + 1] == ':'
}

/// The segments of an address written with `::`: the groups `head` lists,
/// then as many zero segments as make eight, at least one, then the groups
/// `tail` lists.
pub open spec fn compressed(head: Seq<u16>, tail: Seq<u16>) -> Seq<u16> {
    head + Seq::new((8 - head.len() - tail.len()) as nat, |k: int| 0u16) + tail
}

/// The IPv6 address that `s` writes, if any: eight groups separated by
/// colons, or fewer around a single `::` that stands for one or more zero
/// segments; the last two groups may be written as a dotted quad.
pub open spec fn ipv6_of(s: Seq<char>) -> Option<Ipv6Addr> {
    if exists|p: int| is_double_colon_at(s, p) {
        let p = choose|p: int| is_double_colon_at(s, p);
        if exists|q: int| is_double_colon_at(s, q) && q != p {
            None
        } else {
            match (groups_of(s.subrange(0, p), false), groups_of(s.subrange(p + 2, s.len() as int), true)) {
                (Some(h), Some(t)) => if h.len() + t.len() <= 7 {
                    Some(Ipv6Addr::from_segs(compressed(h, t)))
                } else {
                    None
                },
                _ => None,
            }
        }
    } else {
        match groups_of(s, true) {
            Some(g) => if g.len() == 8 {
                Some(Ipv6Addr::from_segs(g))
            } else {
                None
            },
            None => None,
        }
    }
}

fn from_vec(v: &Vec<u16>) -> (r: Ipv6Addr)
    requires
        v@.len() == 8,
    ensures
        r == Ipv6Addr::from_segs(v@),
{
    Ipv6Addr { s0: v[0], s1: v[1], s2: v[2], s3: v[3], s4: v[4], s5: v[5], s6: v[6], s7: v[7] }
}

/// Reads an IPv6 address in the text form of RFC 4291.
pub fn parse_ipv6(s: &str) -> (r: Option<Ipv6Addr>)
    ensures
        r == ipv6_of(s@),
{
    let n = s.unicode_len();
    let mut first: Option<usize> = None;
    let mut twice = false;
    let mut i: usize = 0;
    while i < n
        invariant
            n == s@.len(),
            i <= n,
            first is None ==> forall|q: int| 0 <= q < i ==> !is_double_colon_at(s@, q),
            first is None ==> !twice,
            first matches Some(p) ==> {
                &&& is_double_colon_at(s@, p as int)
                &&& p < i
                &&& twice <==> exists|q: int| 0 <= q < i && is_double_colon_at(s@, q) && q != p
            },
        decreases n - i,
    {
        let here = i + 1 < n && s.get_char(i) == ':' && s.get_char(i + 1) == ':';
        assert(here == is_double_colon_at(s@, i as int));
        let ghost before = first;
        if here {
            match first {
                None => {
                    first = Some(i);
                },
                Some(p) => {
                    twice = true;
                    assert(is_double_colon_at(s@, i as int));
                },
            }
        }
        proof {
            if before is None && here {
                if exists|q: int| 0 <= q < i + 1 && is_double_colon_at(s@, q) && q != i {
                    let q = choose|q: int| 0 <= q < i + 1 && is_double_colon_at(s@, q) && q != i;
                    assert(q < i);
                }
            }
            if let Some(p) = before {
                if !here {
                    if exists|q: int| 0 <= q < i + 1 && is_double_colon_at(s@, q) && q != p {
                        let q = choose|q: int| 0 <= q < i + 1 && is_double_colon_at(s@, q) && q != p;
                        assert(q != i);
                    }
                }
            }
        }
        i = i + 1;
    }
    proof {
        assert forall|q: int| is_double_colon_at(s@, q) implies 0 <= q < i by {}
    }
    match first {
        None => {
            match parse_groups(s, 0, n, true) {
                Some(g) => {
                    assert(s@.subrange(0, n as int) =~= s@);
                    if g.len() == 8 {
                        Some(from_vec(&g))
                    } else {
                        None
                    }
                },
                None => {
                    assert(s@.subrange(0, n as int) =~= s@);
                    None
                },
            }
        },
        Some(p) => {
            if twice {
                return None;
            }
            let head = match parse_groups(s, 0, p, false) {
                Some(h) => h,
                None => return None,
            };
            let tail = match parse_groups(s, p + 2, n, true) {
                Some(t) => t,
                None => return None,
            };
            if head.len() > 7 || tail.len() > 7 - head.len() {
                return None;
            }
            let ghost want = compressed(head@, tail@);
            let gap = 8 - head.len() - tail.len();
            let mut segs: Vec<u16> = Vec::new();
            let mut k: usize = 0;
            while k < 8
                invariant
                    head@.len() + tail@.len() <= 7,
                    gap == 8 - head@.len() - tail@.len(),
                    want == compressed(head@, tail@),
                    want.len() == 8,
                    k <= 8,
                    segs@ == want.subrange(0, k as int),
                decreases 8 - k,
            {
                let x = if k < head.len() {
                    head[k]
                } else if k < head.len() + gap {
                    0
                } else {
                    tail[k - head.len() - gap]
                };
                assert(want[k as int] == x);
                segs.push(x);
                assert(segs@ =~= want.subrange(0, k + 1));
                k = k + 1;
            }
            assert(segs@ =~= want);
            Some(from_vec(&segs))
        },
    }
}

} // verus!
