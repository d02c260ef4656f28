use vstd::prelude::*;

use crate::address::{IpAddr, Ipv4Addr, ip_of, lemma_ipv4_of_text, lemma_text_len, parse_ip_address};
use crate::output::{IpError, decode_utf8, utf8_text};

verus! {

/// `s` without its leading and trailing white space.
pub uninterp spec fn trimmed(s: Seq<char>) -> Seq<char>;

/// Relies on `str::trim`: the text without its leading and trailing white
/// space; an empty text stays empty.
#[verifier::external_body]
fn trim<'a>(s: &'a str) -> (r: &'a str)
    ensures
        r@ == trimmed(s@),
        s@.len() == 0 ==> r@.len() == 0,
{
    s.trim()
}

/// What the public resolver makes of the body `output` of the IP-echo
/// service's answer.
pub open spec fn public_result(output: Seq<u8>) -> Result<IpAddr, IpError> {
    match utf8_text(output) {
        None => Err(IpError::InvalidUtf8),
        Some(text) => match ip_of(trimmed(text)) {
            Some(ip) => Ok(ip),
            None => Err(IpError::NotAnAddress),
        },
    }
}

/// The address that an IP-echo service answered with: the whole body, less
/// the white space around it, must be the address.
pub fn public_ip_from_output(output: Vec<u8>) -> (r: Result<IpAddr, IpError>)
    ensures
        r == public_result(output@),
        output@.len() == 0 ==> r == Err::<IpAddr, IpError>(IpError::NotAnAddress),
{
    let text = match decode_utf8(output) {
        Some(t) => t,
        None => return Err(IpError::InvalidUtf8),
    };
    let body = trim(text.as_str());
    proof {
        if body@.len() == 0 {
            assert forall|ip: Ipv4Addr| body@ != ip.text() by {
                lemma_text_len(ip);
            }
        }
    }
    match parse_ip_address(body) {
        Some(ip) => Ok(ip),
        None => Err(IpError::NotAnAddress),
    }
}

/// A body that is, white space aside, the dotted-quad form of an address
/// gives exactly that address.
pub proof fn lemma_public_dotted_quad(output: Seq<u8>, ip: Ipv4Addr)
    requires
        utf8_text(output) matches Some(text) && trimmed(text) == ip.text(),
    ensures
        public_result(output) == Ok::<IpAddr, IpError>(IpAddr::V4(ip)),
{
    lemma_ipv4_of_text(ip);
}

} // verus!
