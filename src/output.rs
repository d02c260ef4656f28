use vstd::prelude::*;

verus! {

/// Why an address could not be found.
#[derive(Clone, Copy, Debug, PartialEq, Eq, Structural)]
pub enum IpError {
    /// The network tool could not be run.
    CommandFailed,
    /// What the tool printed is not UTF-8.
    InvalidUtf8,
    /// The pattern that picks addresses out of the output does not compile.
    InvalidPattern,
    /// The text does not hold an address.
    NotAnAddress,
}

/// The text that `bytes` encode in UTF-8, or None where they are not UTF-8.
pub uninterp spec fn utf8_text(bytes: Seq<u8>) -> Option<Seq<char>>;

/// Relies on `String::from_utf8`: it fails exactly where the bytes are not
/// UTF-8, and otherwise holds the text they encode; no bytes make the empty
/// text.
#[verifier::external_body]
pub(crate) fn decode_utf8(bytes: Vec<u8>) -> (r: Option<String>)
    ensures
        r is Some <==> utf8_text(bytes@) is Some,
        r matches Some(t) ==> utf8_text(bytes@) == Some(t@),
        r matches Some(t) ==> (bytes@.len() == 0 ==> t@.len() == 0),
        r is Some || bytes@.len() != 0,
{
    String::from_utf8(bytes).ok()
}

} // verus!
