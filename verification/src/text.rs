//! Text utilities: verified string comparison, and the trusted boundary to
//! the textual form of address blocks.

use vstd::prelude::*;
use vstd::std_specs::iter::IteratorSpec;
use vstd::string::StringSliceAdditionalSpecFns;
use vstd::utf8::encode_utf8_decode_utf8;

use crate::{Cidr, Family};

verus! {

/// Whether two string slices hold the same characters, decided by comparing
/// their UTF-8 bytes: equal bytes decode to equal characters.
pub fn str_eq(a: &str, b: &str) -> (r: bool)
    ensures
        r == (a@ == b@),
{
    let ab = a.as_bytes();
    let bb = b.as_bytes();
    if ab.len() != bb.len() {
        return false;
    }
    let n = ab.len();
    let mut i: usize = 0;
    while i < n
        invariant
            ab@ == a.spec_bytes(),
            bb@ == b.spec_bytes(),
            ab@.len() == bb@.len(),
            n == ab@.len(),
            i <= n,
            forall|j: int| 0 <= j < i ==> ab@[j] == bb@[j],
        decreases n - i,
    {
        if ab[i] != bb[i] {
            return false;
        }
        i = i + 1;
    }
    proof {
        assert(a.spec_bytes() =~= b.spec_bytes());
        encode_utf8_decode_utf8(a@);
        encode_utf8_decode_utf8(b@);
    }
    true
}

/// Whether an optional borrowed name and an optional owned name hold the
/// same characters.
pub fn opt_name_eq(a: Option<&str>, b: &Option<String>) -> (r: bool)
    ensures
        r == (crate::opt_name(a) == crate::name_view(*b)),
{
    match (a, b) {
        (Some(x), Some(y)) => str_eq(x, y.as_str()),
        (None, None) => true,
        _ => false,
    }
}

/// The characters of a string slice, collected into a vector.
pub fn str_chars(s: &str) -> (r: Vec<char>)
    ensures
        r@ == s@,
{
    broadcast use vstd::string::group_string_axioms;

    let mut it = s.chars();
    let mut out: Vec<char> = Vec::new();
    proof {
        assert(it.remaining() == s@);
    }
    loop
        invariant_except_break
            IteratorSpec::obeys_prophetic_iter_laws(&it),
            IteratorSpec::decrease(&it) is Some,
            out@ + IteratorSpec::remaining(&it) == s@,
        ensures
            out@ == s@,
        decreases IteratorSpec::decrease(&it)->0,
    {
        match it.next() {
            Some(c) => {
                out.push(c);
                proof {
                    assert(out@ + IteratorSpec::remaining(&it) =~= s@);
                }
            },
            None => {
                proof {
                    assert(out@ =~= s@);
                }
                break;
            },
        }
    }
    out
}

/// Relies on String::push: appending one character to an owned string
/// appends it to the string's characters.
pub assume_specification[ String::push ](s: &mut String, c: char)
    ensures
        final(s)@ == old(s)@.push(c),
;

/// The canonical text of the block with the given family, first address and
/// prefix length.
pub uninterp spec fn cidr_text(v6: bool, address: u128, network_length: u8) -> Seq<char>;

/// The block that the given text denotes, if any: its family, first address
/// and prefix length.
pub uninterp spec fn text_cidr(s: Seq<char>) -> Option<(bool, u128, u8)>;

/// The block described by a (family, first address, prefix length) triple.
pub open spec fn parts_to_cidr(p: (bool, u128, u8)) -> Cidr {
    Cidr {
        family: if p.0 {
            Family::V6
        } else {
            Family::V4
        },
        address: p.1,
        network_length: p.2,
    }
}

/// Relies on cidr::IpCidr's Display implementation: the text of a block is a
/// function of its family, address and prefix length alone, and IpCidr's
/// FromStr parses that canonical text back to the block it was printed from.
#[verifier::external_body]
pub(crate) fn cidr_to_string(c: &Cidr) -> (r: String)
    requires
        c.wf(),
    ensures
        r@ == cidr_text(c.family is V6, c.address, c.network_length),
        text_cidr(r@) == Some((c.family is V6, c.address, c.network_length)),
{
    let addr = match c.family {
        Family::V4 => core::net::IpAddr::V4(core::net::Ipv4Addr::from(c.address as u32)),
        Family::V6 => core::net::IpAddr::V6(core::net::Ipv6Addr::from(c.address)),
    };
    match cidr::IpCidr::new(addr, c.network_length) {
        Ok(block) => format!("{}", block),
        Err(_) => String::new(),
    }
}

/// Relies on cidr::IpCidr's FromStr implementation: what a text denotes is a
/// function of its characters alone, and a parsed block always carries its
/// network address (parsing fails when host bits are set), so the result is
/// well-formed.
#[verifier::external_body]
pub(crate) fn parse_cidr(s: &str) -> (r: Option<Cidr>)
    ensures
        match r {
            Some(c) => text_cidr(s@) == Some((c.family is V6, c.address, c.network_length))
                && c.wf(),
            None => text_cidr(s@) is None,
        },
{
    match s.parse::<cidr::IpCidr>() {
        Ok(cidr::IpCidr::V4(c)) => Some(
            Cidr { family: Family::V4, address: u32::from(c.first_address()) as u128, network_length: c.network_length() },
        ),
        Ok(cidr::IpCidr::V6(c)) => Some(
            Cidr { family: Family::V6, address: u128::from(c.first_address()), network_length: c.network_length() },
        ),
        Err(_) => None,
    }
}

} // verus!
