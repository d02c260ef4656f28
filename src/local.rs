use vstd::prelude::*;

use crate::address::{IpAddr, ipv4_of, parse_ipv4};
use crate::output::{IpError, decode_utf8, utf8_text};

verus! {

#[verifier::external_type_specification]
#[verifier::external_body]
pub struct ExRegexError(regex::Error);

/// Whether `pattern` compiles to a regex under the default size limits.
pub uninterp spec fn regex_compiles(pattern: Seq<char>) -> bool;

/// For each match of `pattern` in `haystack`, from left to right, the text
/// that capture group `group` took in it, or None where the group took no
/// part in the match.
pub uninterp spec fn regex_group_captures(
    pattern: Seq<char>,
    haystack: Seq<char>,
    group: nat,
) -> Seq<Option<Seq<char>>>;

/// The texts of a list of optional strings.
pub open spec fn texts_of(v: Seq<Option<String>>) -> Seq<Option<Seq<char>>> {
    v.map_values(
        |o: Option<String>|
            match o {
                Some(t) => Some(t@),
                None => None,
            },
    )
}

/// Relies on `regex::Regex::new`, which fails exactly on the patterns that do
/// not compile, and on `Regex::captures_iter` with `Captures::get`, which give
/// the successive matches and what a capture group took in each.
#[verifier::external_body]
fn capture_group(pattern: &str, haystack: &str, group: usize) -> (r: Result<
    Vec<Option<String>>,
    regex::Error,
>)
    ensures
        r is Ok <==> regex_compiles(pattern@),
        r matches Ok(v) ==> texts_of(v@) == regex_group_captures(pattern@, haystack@, group as nat),
{
    match regex::Regex::new(pattern) {
        Ok(re) => Ok(
            re.captures_iter(haystack).map(|c| c.get(group).map(|m| m.as_str().to_string())).collect(),
        ),
        Err(e) => Err(e),
    }
}

/// A line of `ifconfig` output that names an IPv4 address, as
/// `inet 172.17.0.2  netmask 255.255.0.0`; the address is group 2.
pub const UNIX_PATTERN: &'static str = r"(?m)^.*inet (addr:)?(([0-9]*\.){3}[0-9]*).*$";

/// A line of `ipconfig` output that names an IPv4 address, as
/// `IPv4 Address. . . . . . . . . . . : 192.168.1.47`; the address is group 2.
pub const WINDOWS_PATTERN: &'static str =
    r"(?m)^.*IPv4 Address. . . . . . . . . . . : (Addr:)?(([0-9]*\.){3}[0-9]*).*$";

/// The capture group that holds the address in both patterns.
pub const ADDRESS_GROUP: usize = 2;

/// The system whose network tool printed the output.
#[derive(Clone, Copy, Debug, PartialEq, Eq, Structural)]
pub enum Platform {
    /// `ifconfig` on Linux, macOS and the other Unix systems.
    Unix,
    /// `ipconfig` on Windows.
    Windows,
}

pub open spec fn pattern_of(platform: Platform) -> Seq<char> {
    match platform {
        Platform::Unix => UNIX_PATTERN@,
        Platform::Windows => WINDOWS_PATTERN@,
    }
}

/// The first of `hosts`, in order, that is the dotted-quad form of an
/// address outside the loopback block.
pub open spec fn first_local(hosts: Seq<Option<Seq<char>>>) -> Option<IpAddr>
    decreases hosts.len(),
{
    if hosts.len() == 0 {
        None
    } else {
        let rest = first_local(hosts.drop_first());
        match hosts[0] {
            Some(h) => match ipv4_of(h) {
                Some(ip) => if ip.spec_is_loopback() {
                    rest
                } else {
                    Some(IpAddr::V4(ip))
                },
                None => rest,
            },
            None => rest,
        }
    }
}

/// Whether `hosts[i]` is the dotted-quad form of a non-loopback address.
pub open spec fn is_local_at(hosts: Seq<Option<Seq<char>>>, i: int) -> bool {
    &&& hosts[i] is Some
    &&& ipv4_of(hosts[i]->0) is Some
    &&& !ipv4_of(hosts[i]->0)->0.spec_is_loopback()
}

/// Picks, among the texts that a pattern captured, the first that reads as
/// an IPv4 address outside the loopback block.
pub fn first_non_loopback(hosts: &Vec<Option<String>>) -> (r: Option<IpAddr>)
    ensures
        r == first_local(texts_of(hosts@)),
{
    let ghost texts = texts_of(hosts@);
    let n = hosts.len();
    let mut i: usize = 0;
    assert(texts.subrange(0, n as int) =~= texts);
    while i < n
        invariant
            n == hosts@.len() == texts.len(),
            i <= n,
            texts == texts_of(hosts@),
            first_local(texts) == first_local(texts.subrange(i as int, n as int)),
        decreases n - i,
    {
        let ghost sub = texts.subrange(i as int, n as int);
        assert(sub.drop_first() =~= texts.subrange(i + 1, n as int));
        assert(sub[0] == texts[i as int]);
        match &hosts[i] {
            Some(h) => {
                match parse_ipv4(h.as_str()) {
                    Some(ip) => {
                        if !ip.is_loopback() {
                            return Some(IpAddr::V4(ip));
                        }
                    },
                    None => {},
                }
            },
            None => {},
        }
        i = i + 1;
    }
    assert(texts.subrange(n as int, n as int) =~= Seq::<Option<Seq<char>>>::empty());
    None
}

/// Finds the first non-loopback IPv4 address that capture group 2 of
/// `pattern` takes in `content`.
pub fn find_ip_by_regex(pattern: &str, content: &str) -> (r: Result<Option<IpAddr>, IpError>)
    ensures
        match r {
            Ok(found) => regex_compiles(pattern@) && found == first_local(
                regex_group_captures(pattern@, content@, ADDRESS_GROUP as nat),
            ),
            Err(e) => !regex_compiles(pattern@) && e == IpError::InvalidPattern,
        },
{
    match capture_group(pattern, content, ADDRESS_GROUP) {
        Ok(hosts) => Ok(first_non_loopback(&hosts)),
        Err(_) => Err(IpError::InvalidPattern),
    }
}

/// What the local resolver makes of the output of the platform's network
/// tool: the first non-loopback IPv4 address that the platform's pattern
/// captures, in order.
pub open spec fn local_result(output: Seq<u8>, platform: Platform) -> Result<
    Option<IpAddr>,
    IpError,
> {
    match utf8_text(output) {
        None => Err(IpError::InvalidUtf8),
        Some(text) => if regex_compiles(pattern_of(platform)) {
            Ok(first_local(regex_group_captures(pattern_of(platform), text, ADDRESS_GROUP as nat)))
        } else {
            Err(IpError::InvalidPattern)
        },
    }
}

/// Finds the host's local IPv4 address in what the platform's network tool
/// printed.
pub fn local_ip_from_output(output: Vec<u8>, platform: Platform) -> (r: Result<
    Option<IpAddr>,
    IpError,
>)
    ensures
        r == local_result(output@, platform),
{
    let text = match decode_utf8(output) {
        Some(t) => t,
        None => return Err(IpError::InvalidUtf8),
    };
    let pattern = match platform {
        Platform::Unix => UNIX_PATTERN,
        Platform::Windows => WINDOWS_PATTERN,
    };
    find_ip_by_regex(pattern, text.as_str())
}

/// The address picked among `hosts` is never in the loopback block: it is
/// the first entry that is the dotted-quad form of a non-loopback address.
pub proof fn lemma_first_local_skips_loopback(hosts: Seq<Option<Seq<char>>>)
    ensures
        first_local(hosts) matches Some(found) ==> found is V4,
        first_local(hosts) matches Some(IpAddr::V4(ip)) ==> {
            &&& !ip.spec_is_loopback()
            &&& exists|i: int|
                0 <= i < hosts.len() && #[trigger] is_local_at(hosts, i) && hosts[i] == Some(
                    ip.text(),
                ) && forall|j: int| 0 <= j < i ==> !is_local_at(hosts, j)
        },
    decreases hosts.len(),
{
    if hosts.len() > 0 {
        let rest = hosts.drop_first();
        lemma_first_local_skips_loopback(rest);
        if let Some(IpAddr::V4(ip)) = first_local(hosts) {
            if is_local_at(hosts, 0) {
                let found = ipv4_of(hosts[0]->0)->0;
                assert(found.text() == hosts[0]->0);
                assert(is_local_at(hosts, 0));
            } else {
                let i = choose|i: int|
                    0 <= i < rest.len() && #[trigger] is_local_at(rest, i) && rest[i] == Some(
                        ip.text(),
                    ) && forall|j: int| 0 <= j < i ==> !is_local_at(rest, j);
                assert(is_local_at(hosts, i + 1));
                assert forall|j: int| 0 <= j < i + 1 implies !is_local_at(hosts, j) by {
                    if j > 0 {
                        assert(hosts[j] == rest[j - 1]);
                        assert(!is_local_at(rest, j - 1));
                    }
                }
            }
        }
    }
}

/// Nothing is picked exactly where no entry of `hosts` is the dotted-quad
/// form of a non-loopback address: loopback-only, malformed or empty
/// captures give no address.
pub proof fn lemma_first_local_none(hosts: Seq<Option<Seq<char>>>)
    ensures
        first_local(hosts) is None <==> forall|i: int|
            0 <= i < hosts.len() ==> !#[trigger] is_local_at(hosts, i),
    decreases hosts.len(),
{
    if hosts.len() > 0 {
        let rest = hosts.drop_first();
        lemma_first_local_none(rest);
        assert forall|i: int| 0 < i < hosts.len() implies is_local_at(hosts, i) == is_local_at(
            rest,
            i - 1,
        ) by {
            assert(hosts[i] == rest[i - 1]);
        }
        if first_local(hosts) is None {
            assert forall|i: int| 0 <= i < hosts.len() implies !#[trigger] is_local_at(hosts, i) by {
                if i > 0 {
                    assert(!is_local_at(rest, i - 1));
                }
            }
        } else {
            if !is_local_at(hosts, 0) {
                let k = choose|k: int| 0 <= k < rest.len() && is_local_at(rest, k);
                assert(is_local_at(hosts, k + 1));
            }
        }
    }
}

/// The local resolver never gives a loopback address, nor an IPv6 one.
pub proof fn lemma_local_never_loopback(output: Seq<u8>, platform: Platform)
    ensures
        local_result(output, platform) matches Ok(Some(found)) ==> (found matches IpAddr::V4(ip)
            && !ip.spec_is_loopback()),
{
    if let Some(text) = utf8_text(output) {
        lemma_first_local_skips_loopback(
            regex_group_captures(pattern_of(platform), text, ADDRESS_GROUP as nat),
        );
    }
}

} // verus!
