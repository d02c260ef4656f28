use vstd::prelude::*;
use vstd::string::*;

use crate::ipv6::{Ipv6Addr, ipv6_of, parse_ipv6};

verus! {

/// The ASCII decimal digit for `d`.
pub open spec fn digit_char(d: nat) -> char {
    (('0' as nat) + d) as char
}

pub open spec fn is_digit(c: char) -> bool {
    '0' <= c && c <= '9'
}

/// The value of an ASCII decimal digit.
pub open spec fn digit_value(c: char) -> nat {
    ((c as nat) - ('0' as nat)) as nat
}

/// The shortest decimal form of `n`: one to three digits, no leading zero.
pub open spec fn octet_text(n: u8) -> Seq<char> {
    if n < 10 {
        seq![digit_char(n as nat)]
    } else if n < 100 {
        seq![digit_char((n / 10) as nat), digit_char((n % 10) as nat)]
    } else {
        seq![
            digit_char((n / 100) as nat),
            digit_char(((n / 10) % 10) as nat),
            digit_char((n % 10) as nat),
        ]
    }
}

/// An IPv4 address, as its four octets in network order.
#[derive(Clone, Copy, Debug, PartialEq, Eq, Structural)]
pub struct Ipv4Addr {
    pub a: u8,
    pub b: u8,
    pub c: u8,
    pub d: u8,
}

/// An IP address.
#[derive(Clone, Copy, Debug, PartialEq, Eq, Structural)]
pub enum IpAddr {
    V4(Ipv4Addr),
    V6(Ipv6Addr),
}

impl Ipv4Addr {
    /// The dotted-quad form of the address, as `192.168.1.47`.
    pub open spec fn text(self) -> Seq<char> {
        octet_text(self.a) + seq!['.'] + octet_text(self.b) + seq!['.'] + octet_text(self.c)
            + seq!['.'] + octet_text(self.d)
    }

    /// Whether the address lies in the loopback block 127.0.0.0/8.
    pub open spec fn spec_is_loopback(self) -> bool {
        self.a == 127
    }

    pub fn new(a: u8, b: u8, c: u8, d: u8) -> (r: Ipv4Addr)
        ensures
            r == (Ipv4Addr { a, b, c, d }),
    {
        Ipv4Addr { a, b, c, d }
    }

    pub fn octets(&self) -> (r: [u8; 4])
        ensures
            r@ == seq![self.a, self.b, self.c, self.d],
    {
        let r = [self.a, self.b, self.c, self.d];
        assert(r@ =~= seq![self.a, self.b, self.c, self.d]);
        r
    }

    pub fn is_loopback(&self) -> (r: bool)
        ensures
            r == self.spec_is_loopback(),
    {
        self.a == 127
    }
}

proof fn lemma_octet_text_digits(n: u8)
    ensures
        1 <= octet_text(n).len() <= 3,
        forall|k: int| 0 <= k < octet_text(n).len() ==> is_digit(#[trigger] octet_text(n)[k]),
        octet_text(n).len() > 1 ==> octet_text(n)[0] != '0',
{
}

proof fn lemma_digit_round_trip(d: nat)
    requires
        d < 10,
    ensures
        is_digit(digit_char(d)),
        digit_value(digit_char(d)) == d,
{
}

proof fn lemma_digit_char_of_value(c: char)
    requires
        is_digit(c),
    ensures
        digit_value(c) < 10,
        digit_char(digit_value(c)) == c,
{
}

/// The digit that `c` stands for, if it is an ASCII decimal digit.
fn digit_of(c: char) -> (r: Option<u8>)
    ensures
        match r {
            Some(d) => is_digit(c) && d as nat == digit_value(c) && d < 10,
            None => !is_digit(c),
        },
{
    if '0' <= c && c <= '9' {
        Some((c as u32 - '0' as u32) as u8)
    } else {
        None
    }
}

/// Reads the octet whose decimal form is `s@[start..end]`.
fn parse_octet(s: &str, start: usize, end: usize) -> (r: Option<u8>)
    requires
        start <= end <= s@.len(),
    ensures
        match r {
            Some(n) => s@.subrange(start as int, end as int) == octet_text(n),
            None => forall|n: u8| s@.subrange(start as int, end as int) != octet_text(n),
        },
{
    let ghost seg = s@.subrange(start as int, end as int);
    let len = end - start;
    if len == 0 || len > 3 {
        proof {
            assert forall|n: u8| seg != octet_text(n) by {
                lemma_octet_text_digits(n);
            }
        }
        return None;
    }
    let d0 = match digit_of(s.get_char(start)) {
        Some(d) => d,
        None => {
            proof {
                assert forall|n: u8| seg != octet_text(n) by {
                    lemma_octet_text_digits(n);
                    assert(seg[0] == s@[start as int]);
                }
            }
            return None;
        },
    };
    if len == 1 {
        proof {
            lemma_digit_char_of_value(s@[start as int]);
            assert(seg =~= octet_text(d0));
        }
        return Some(d0);
    }
    if d0 == 0 {
        proof {
            assert forall|n: u8| seg != octet_text(n) by {
                lemma_octet_text_digits(n);
                assert(seg[0] == s@[start as int]);
            }
        }
        return None;
    }
    let d1 = match digit_of(s.get_char(start + 1)) {
        Some(d) => d,
        None => {
            proof {
                assert forall|n: u8| seg != octet_text(n) by {
                    lemma_octet_text_digits(n);
                    assert(seg[1] == s@[start + 1]);
                }
            }
            return None;
        },
    };
    proof {
        lemma_digit_char_of_value(s@[start as int]);
        lemma_digit_char_of_value(s@[start + 1]);
    }
    if len == 2 {
        let n: u8 = d0 * 10 + d1;
        proof {
            lemma_digit_round_trip(d0 as nat);
            assert(seg =~= octet_text(n));
        }
        return Some(n);
    }
    let d2 = match digit_of(s.get_char(start + 2)) {
        Some(d) => d,
        None => {
            proof {
                assert forall|n: u8| seg != octet_text(n) by {
                    lemma_octet_text_digits(n);
                    assert(seg[2] == s@[start + 2]);
                }
            }
            return None;
        },
    };
    proof {
        lemma_digit_char_of_value(s@[start + 2]);
    }
    let value: u32 = d0 as u32 * 100 + d1 as u32 * 10 + d2 as u32;
    if value > 255 {
        proof {
            assert forall|n: u8| seg != octet_text(n) by {
                lemma_octet_text_digits(n);
                if seg == octet_text(n) {
                    assert(seg[0] == s@[start as int]);
                    assert(seg[1] == s@[start + 1]);
                    assert(seg[2] == s@[start + 2]);
                    lemma_digit_round_trip((n / 100) as nat);
                    lemma_digit_round_trip(((n / 10) % 10) as nat);
                    lemma_digit_round_trip((n % 10) as nat);
                }
            }
        }
        return None;
    }
    let n = value as u8;
    proof {
        assert(seg =~= octet_text(n));
    }
    Some(n)
}

proof fn lemma_octet_text_len(n: u8)
    ensures
        octet_text(n).len() == if n < 10 {
            1int
        } else if n < 100 {
            2int
        } else {
            3int
        },
{
}

proof fn lemma_octet_text_injective(n: u8, m: u8)
    requires
        octet_text(n) == octet_text(m),
    ensures
        n == m,
{
    lemma_digit_round_trip((n % 10) as nat);
    lemma_digit_round_trip((m % 10) as nat);
    lemma_octet_text_len(n);
    lemma_octet_text_len(m);
    if n < 10 {
        lemma_digit_round_trip(n as nat);
        lemma_digit_round_trip(m as nat);
        assert(octet_text(n)[0] == octet_text(m)[0]);
        assert(octet_text(n)[0] == digit_char(n as nat));
        assert(octet_text(m)[0] == digit_char(m as nat));
        assert(digit_value(digit_char(n as nat)) == digit_value(digit_char(m as nat)));
    } else if n < 100 {
        lemma_digit_round_trip((n / 10) as nat);
        lemma_digit_round_trip((m / 10) as nat);
        assert(octet_text(n)[0] == octet_text(m)[0]);
        assert(octet_text(n)[1] == octet_text(m)[1]);
        assert(n / 10 == m / 10);
        assert(n % 10 == m % 10);
        assert(n == (n / 10) * 10 + n % 10);
        assert(m == (m / 10) * 10 + m % 10);
        assert(n == m);
    } else {
        lemma_digit_round_trip((n / 100) as nat);
        lemma_digit_round_trip(((n / 10) % 10) as nat);
        lemma_digit_round_trip((m / 100) as nat);
        lemma_digit_round_trip(((m / 10) % 10) as nat);
        assert(octet_text(n)[0] == octet_text(m)[0]);
        assert(octet_text(n)[1] == octet_text(m)[1]);
        assert(octet_text(n)[2] == octet_text(m)[2]);
        assert(n / 100 == m / 100);
        assert((n / 10) % 10 == (m / 10) % 10);
        assert(n % 10 == m % 10);
        assert(n == (n / 100) * 100 + ((n / 10) % 10) * 10 + n % 10);
        assert(m == (m / 100) * 100 + ((m / 10) % 10) * 10 + m % 10);
        assert(n == m);
    }
}

/// `s` holds the decimal form of `n` from `start` on, followed by the end
/// of `s` or by a dot.
pub open spec fn field_at(s: Seq<char>, start: int, n: u8) -> bool {
    let end = start + octet_text(n).len();
    &&& 0 <= start
    &&& end <= s.len()
    &&& s.subrange(start, end) == octet_text(n)
    &&& (end == s.len() || s[end] == '.')
}

/// End of the run of ASCII digits in `s` that starts at `start`.
fn digit_run_end(s: &str, start: usize, len: usize) -> (end: usize)
    requires
        start <= len == s@.len(),
    ensures
        start <= end <= len,
        forall|k: int| start <= k < end ==> is_digit(#[trigger] s@[k]),
        end == len || !is_digit(s@[end as int]),
{
    let mut i: usize = start;
    while i < len
        invariant
            start <= i <= len == s@.len(),
            forall|k: int| start <= k < i ==> is_digit(#[trigger] s@[k]),
        decreases len - i,
    {
        if digit_of(s.get_char(i)).is_none() {
            return i;
        }
        i = i + 1;
    }
    i
}

/// Reads the octet at `start`: a run of digits that is the decimal form of
/// a byte, followed by the end of `s` or by a dot.
fn octet_field(s: &str, start: usize, len: usize) -> (r: Option<(u8, usize)>)
    requires
        start <= len == s@.len(),
    ensures
        match r {
            Some((n, end)) => {
                &&& field_at(s@, start as int, n)
                &&& end == start + octet_text(n).len()
                &&& forall|m: u8| field_at(s@, start as int, m) ==> m == n
            },
            None => forall|m: u8| !field_at(s@, start as int, m),
        },
{
    let end = digit_run_end(s, start, len);
    let r = parse_octet(s, start, end);
    proof {
        assert forall|m: u8| field_at(s@, start as int, m) implies end == start
            + octet_text(m).len() by {
            let p: int = start + octet_text(m).len();
            lemma_octet_text_digits(m);
            assert forall|k: int| start <= k < p implies is_digit(#[trigger] s@[k]) by {
                assert(s@[k] == s@.subrange(start as int, p)[k - start]);
            }
            if end < p {
                assert(is_digit(s@[end as int]));
            }
            if p < end {
                assert(is_digit(s@[p]));
            }
        }
    }
    match r {
        Some(n) => {
            if end < len && s.get_char(end) != '.' {
                return None;
            }
            proof {
                assert forall|m: u8| field_at(s@, start as int, m) implies m == n by {
                    lemma_octet_text_injective(m, n);
                }
            }
            Some((n, end))
        },
        None => None,
    }
}

/// Where the octets and dots of the dotted-quad form of `ip` stand.
proof fn lemma_text_fields(s: Seq<char>, ip: Ipv4Addr)
    requires
        s == ip.text(),
    ensures
        ({
            let pa: int = octet_text(ip.a).len() as int;
            let pb: int = pa + 1 + octet_text(ip.b).len();
            let pc: int = pb + 1 + octet_text(ip.c).len();
            &&& field_at(s, 0, ip.a)
            &&& field_at(s, pa + 1, ip.b)
            &&& field_at(s, pb + 1, ip.c)
            &&& field_at(s, pc + 1, ip.d)
            &&& s[pa] == '.' && s[pb] == '.' && s[pc] == '.'
            &&& pc + 1 + octet_text(ip.d).len() == s.len()
        }),
{
    let pa: int = octet_text(ip.a).len() as int;
    let pb: int = pa + 1 + octet_text(ip.b).len();
    let pc: int = pb + 1 + octet_text(ip.c).len();
    lemma_octet_text_digits(ip.a);
    lemma_octet_text_digits(ip.b);
    lemma_octet_text_digits(ip.c);
    lemma_octet_text_digits(ip.d);
    assert(s.subrange(0, pa) =~= octet_text(ip.a));
    assert(s.subrange(pa + 1, pb) =~= octet_text(ip.b));
    assert(s.subrange(pb + 1, pc) =~= octet_text(ip.c));
    assert(s.subrange(pc + 1, s.len() as int) =~= octet_text(ip.d));
}

/// Four fields separated by dots and filling `s` make the dotted-quad form.
proof fn lemma_fields_text(s: Seq<char>, ip: Ipv4Addr)
    requires
        ({
            let pa: int = octet_text(ip.a).len() as int;
            let pb: int = pa + 1 + octet_text(ip.b).len();
            let pc: int = pb + 1 + octet_text(ip.c).len();
            &&& field_at(s, 0, ip.a)
            &&& field_at(s, pa + 1, ip.b)
            &&& field_at(s, pb + 1, ip.c)
            &&& field_at(s, pc + 1, ip.d)
            &&& pc + 1 + octet_text(ip.d).len() == s.len()
            &&& pa < s.len() && pb < s.len() && pc < s.len()
        }),
    ensures
        s == ip.text(),
{
    let pa: int = octet_text(ip.a).len() as int;
    let pb: int = pa + 1 + octet_text(ip.b).len();
    let pc: int = pb + 1 + octet_text(ip.c).len();
    assert(s =~= s.subrange(0, pa) + seq![s[pa]] + s.subrange(pa + 1, pb) + seq![s[pb]]
        + s.subrange(pb + 1, pc) + seq![s[pc]] + s.subrange(pc + 1, s.len() as int));
    assert(s =~= ip.text());
}

/// Reads an IPv4 address in dotted-quad form, as `192.168.1.47`: four
/// octets in decimal without leading zeros, with nothing before or after.
pub fn parse_ipv4(s: &str) -> (r: Option<Ipv4Addr>)
    ensures
        match r {
            Some(ip) => s@ == ip.text(),
            None => forall|ip: Ipv4Addr| s@ != ip.text(),
        },
        r == ipv4_of(s@),
{
    let len = s.unicode_len();
    let (a, ea) = match octet_field(s, 0, len) {
        Some(f) => f,
        None => {
            proof {
                assert forall|ip: Ipv4Addr| s@ != ip.text() by {
                    if s@ == ip.text() {
                        lemma_text_fields(s@, ip);
                    }
                }
            }
            return None;
        },
    };
    if ea >= len {
        proof {
            assert forall|ip: Ipv4Addr| s@ != ip.text() by {
                if s@ == ip.text() {
                    lemma_text_fields(s@, ip);
                }
            }
        }
        return None;
    }
    let (b, eb) = match octet_field(s, ea + 1, len) {
        Some(f) => f,
        None => {
            proof {
                assert forall|ip: Ipv4Addr| s@ != ip.text() by {
                    if s@ == ip.text() {
                        lemma_text_fields(s@, ip);
                    }
                }
            }
            return None;
        },
    };
    if eb >= len {
        proof {
            assert forall|ip: Ipv4Addr| s@ != ip.text() by {
                if s@ == ip.text() {
                    lemma_text_fields(s@, ip);
                }
            }
        }
        return None;
    }
    let (c, ec) = match octet_field(s, eb + 1, len) {
        Some(f) => f,
        None => {
            proof {
                assert forall|ip: Ipv4Addr| s@ != ip.text() by {
                    if s@ == ip.text() {
                        lemma_text_fields(s@, ip);
                    }
                }
            }
            return None;
        },
    };
    if ec >= len {
        proof {
            assert forall|ip: Ipv4Addr| s@ != ip.text() by {
                if s@ == ip.text() {
                    lemma_text_fields(s@, ip);
                }
            }
        }
        return None;
    }
    let (d, ed) = match octet_field(s, ec + 1, len) {
        Some(f) => f,
        None => {
            proof {
                assert forall|ip: Ipv4Addr| s@ != ip.text() by {
                    if s@ == ip.text() {
                        lemma_text_fields(s@, ip);
                    }
                }
            }
            return None;
        },
    };
    if ed != len {
        proof {
            assert forall|ip: Ipv4Addr| s@ != ip.text() by {
                if s@ == ip.text() {
                    lemma_text_fields(s@, ip);
                }
            }
        }
        return None;
    }
    let ip = Ipv4Addr { a, b, c, d };
    proof {
        lemma_fields_text(s@, ip);
        lemma_ipv4_of_text(ip);
    }
    Some(ip)
}

proof fn lemma_field_unique(s: Seq<char>, start: int, n: u8, m: u8)
    requires
        field_at(s, start, n),
        field_at(s, start, m),
    ensures
        n == m,
{
    lemma_octet_text_digits(n);
    lemma_octet_text_digits(m);
    let pn: int = start + octet_text(n).len();
    let pm: int = start + octet_text(m).len();
    if pn < pm {
        assert(s[pn] == s.subrange(start, pm)[pn - start]);
        assert(is_digit(octet_text(m)[pn - start]));
    } else if pm < pn {
        assert(s[pm] == s.subrange(start, pn)[pm - start]);
        assert(is_digit(octet_text(n)[pm - start]));
    }
    lemma_octet_text_injective(n, m);
}

/// Distinct addresses have distinct dotted-quad forms.
pub proof fn lemma_text_injective(x: Ipv4Addr, y: Ipv4Addr)
    requires
        x.text() == y.text(),
    ensures
        x == y,
{
    let s = x.text();
    lemma_text_fields(s, x);
    lemma_text_fields(s, y);
    let pa: int = octet_text(x.a).len() as int;
    let pb: int = pa + 1 + octet_text(x.b).len();
    let pc: int = pb + 1 + octet_text(x.c).len();
    lemma_field_unique(s, 0, x.a, y.a);
    lemma_field_unique(s, pa + 1, x.b, y.b);
    lemma_field_unique(s, pb + 1, x.c, y.c);
    lemma_field_unique(s, pc + 1, x.d, y.d);
}

/// The address whose dotted-quad form is `s`, if there is one.
pub open spec fn ipv4_of(s: Seq<char>) -> Option<Ipv4Addr> {
    if exists|ip: Ipv4Addr| ip.text() == s {
        Some(choose|ip: Ipv4Addr| ip.text() == s)
    } else {
        None
    }
}

/// The address that `s` is the text of, if there is one: an IPv4 address
/// in dotted-quad form, else an IPv6 address.
pub open spec fn ip_of(s: Seq<char>) -> Option<IpAddr> {
    match ipv4_of(s) {
        Some(ip) => Some(IpAddr::V4(ip)),
        None => match ipv6_of(s) {
            Some(ip) => Some(IpAddr::V6(ip)),
            None => None,
        },
    }
}

/// Reading the dotted-quad form of an address gives that address back.
pub proof fn lemma_ipv4_of_text(ip: Ipv4Addr)
    ensures
        ipv4_of(ip.text()) == Some(ip),
        ip_of(ip.text()) == Some(IpAddr::V4(ip)),
{
    let s = ip.text();
    assert(exists|x: Ipv4Addr| x.text() == s);
    let c = choose|x: Ipv4Addr| x.text() == s;
    lemma_text_injective(c, ip);
}

/// Reads an IP address that makes up the whole of `s`: an IPv4 address in
/// dotted-quad form, or an IPv6 address.
pub fn parse_ip_address(s: &str) -> (r: Option<IpAddr>)
    ensures
        r == ip_of(s@),
{
    match parse_ipv4(s) {
        Some(ip) => Some(IpAddr::V4(ip)),
        None => match parse_ipv6(s) {
            Some(ip) => Some(IpAddr::V6(ip)),
            None => None,
        },
    }
}

/// A dotted-quad form has seven to fifteen characters.
pub proof fn lemma_text_len(ip: Ipv4Addr)
    ensures
        7 <= ip.text().len() <= 15,
{
    lemma_octet_text_digits(ip.a);
    lemma_octet_text_digits(ip.b);
    lemma_octet_text_digits(ip.c);
    lemma_octet_text_digits(ip.d);
}

} // verus!
