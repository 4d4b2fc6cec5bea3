//! Blocks of addresses, written as an address, a slash and a prefix length.

use vstd::prelude::*;

use crate::address::{parse_v4, parse_v6};
#[allow(unused_imports)]
use crate::address::{v4_text, v4_value, v6_text, v6_value};
use crate::number::{decimal_chars, parse_decimal, NumberError};
#[allow(unused_imports)]
use crate::number::{decimal, decimal_value, law_decimal_round_trip};
#[allow(unused_imports)]
use crate::text::{find, first_at, lemma_find_at, occurs_at};
use crate::text::{find_chars, subrange, to_chars, to_text};

verus! {

/// The two kinds of address.
#[derive(Clone, Copy, Debug, PartialEq, Eq, Structural)]
pub enum Family {
    /// 32-bit addresses.
    V4,
    /// 128-bit addresses.
    V6,
}

/// Why a text writes no block of addresses.
#[derive(Clone, Copy, Debug, PartialEq, Eq, Structural)]
pub enum CidrError {
    /// There is no slash.
    Malformed,
    /// What stands before the slash is no address.
    Address,
    /// What stands after the slash is no number below 256.
    Prefix(NumberError),
    /// The prefix is longer than an address.
    PrefixTooLong(u8),
}

/// The text before the first slash of `s`, and the text after it.
pub open spec fn halves(s: Seq<char>) -> Option<(Seq<char>, Seq<char>)> {
    match find(s, seq!['/']) {
        Some(i) => Some((s.take(i), s.skip(i + 1))),
        None => None,
    }
}

/// The prefix length that `s` writes, if it is at most `longest`.
pub open spec fn prefix_value(s: Seq<char>, longest: nat) -> Result<u8, CidrError> {
    match decimal_value(s, 255) {
        Err(error) => Err(CidrError::Prefix(error)),
        Ok(prefix) => if prefix > longest {
            Err(CidrError::PrefixTooLong(prefix as u8))
        } else {
            Ok(prefix as u8)
        },
    }
}

/// The block of 32-bit addresses that `s` writes: an address in it, and how many
/// leading bits its members share.
pub open spec fn v4_cidr(s: Seq<char>) -> Result<(u32, u8), CidrError> {
    match halves(s) {
        None => Err(CidrError::Malformed),
        Some((address, prefix)) => match v4_value(address) {
            None => Err(CidrError::Address),
            Some(network) => match prefix_value(prefix, 32) {
                Ok(length) => Ok((network, length)),
                Err(error) => Err(error),
            },
        },
    }
}

/// The block of 128-bit addresses that `s` writes.
pub open spec fn v6_cidr(s: Seq<char>) -> Result<(u128, u8), CidrError> {
    match halves(s) {
        None => Err(CidrError::Malformed),
        Some((address, prefix)) => match v6_value(address) {
            None => Err(CidrError::Address),
            Some(network) => match prefix_value(prefix, 128) {
                Ok(length) => Ok((network, length)),
                Err(error) => Err(error),
            },
        },
    }
}

/// The text before the first slash, and the text after it.
fn split_halves(s: &[char]) -> (result: Option<(Vec<char>, Vec<char>)>)
    ensures
        match result {
            Some((address, prefix)) => halves(s@) == Some((address@, prefix@)),
            None => halves(s@) is None,
        },
{
    let mut slash: Vec<char> = Vec::new();
    slash.push('/');
    assert(slash@ =~= seq!['/']);
    let n: usize = s.len();
    match find_chars(s, &slash) {
        Some(i) => {
            let address: Vec<char> = subrange(s, 0, i);
            let prefix: Vec<char> = subrange(s, i + 1, n);
            assert(address@ =~= s@.take(i as int));
            assert(prefix@ =~= s@.skip(i + 1));
            Some((address, prefix))
        },
        None => None,
    }
}

/// Reads a prefix length.
fn parse_prefix(s: &[char], longest: u8) -> (result: Result<u8, CidrError>)
    ensures
        result == prefix_value(s@, longest as nat),
        result matches Ok(prefix) ==> prefix <= longest,
{
    match parse_decimal(s, 255) {
        Err(error) => Err(CidrError::Prefix(error)),
        Ok(prefix) => if prefix > longest as u32 {
            Err(CidrError::PrefixTooLong(prefix as u8))
        } else {
            Ok(prefix as u8)
        },
    }
}

/// Reads a block of 32-bit addresses.
pub fn parse_ipv4_cidr(cidr: &str) -> (result: Result<(u32, u8), CidrError>)
    ensures
        result == v4_cidr(cidr@),
        result matches Ok((_, prefix)) ==> prefix <= 32,
{
    let chars: Vec<char> = to_chars(cidr);
    match split_halves(&chars) {
        None => Err(CidrError::Malformed),
        Some((address, prefix)) => match parse_v4(&address) {
            None => Err(CidrError::Address),
            Some(network) => match parse_prefix(&prefix, 32) {
                Ok(length) => Ok((network, length)),
                Err(error) => Err(error),
            },
        },
    }
}

/// Reads a block of 128-bit addresses.
pub fn parse_ipv6_cidr(cidr: &str) -> (result: Result<(u128, u8), CidrError>)
    ensures
        result == v6_cidr(cidr@),
        result matches Ok((_, prefix)) ==> prefix <= 128,
{
    let chars: Vec<char> = to_chars(cidr);
    match split_halves(&chars) {
        None => Err(CidrError::Malformed),
        Some((address, prefix)) => match parse_v6(&address) {
            None => Err(CidrError::Address),
            Some(network) => match parse_prefix(&prefix, 128) {
                Ok(length) => Ok((network, length)),
                Err(error) => Err(error),
            },
        },
    }
}

/// What the program says of a text that writes no block of addresses.
pub open spec fn cidr_error_text(error: CidrError, family: Family, cidr: Seq<char>) -> Seq<char> {
    match error {
        CidrError::Malformed => match family {
            Family::V4 => "Invalid IPv4 CIDR: "@ + cidr,
            Family::V6 => "Invalid IPv6 CIDR: "@ + cidr,
        },
        CidrError::Address => match family {
            Family::V4 => "invalid IPv4 address syntax"@,
            Family::V6 => "invalid IPv6 address syntax"@,
        },
        CidrError::Prefix(NumberError::Empty) => "cannot parse integer from empty string"@,
        CidrError::Prefix(NumberError::InvalidDigit) => "invalid digit found in string"@,
        CidrError::Prefix(NumberError::TooLarge) => "number too large to fit in target type"@,
        CidrError::PrefixTooLong(prefix) => match family {
            Family::V4 => "Invalid IPv4 prefix: "@ + decimal(prefix as nat),
            Family::V6 => "Invalid IPv6 prefix: "@ + decimal(prefix as nat),
        },
    }
}

impl CidrError {
    /// What the program says of a text that writes no block of addresses.
    pub fn message(&self, family: Family, cidr: &str) -> (text: String)
        ensures
            text@ == cidr_error_text(*self, family, cidr@),
    {
        match self {
            CidrError::Malformed => {
                let mut text: String = match family {
                    Family::V4 => "Invalid IPv4 CIDR: ".to_string(),
                    Family::V6 => "Invalid IPv6 CIDR: ".to_string(),
                };
                text.append(cidr);
                text
            },
            CidrError::Address => match family {
                Family::V4 => "invalid IPv4 address syntax".to_string(),
                Family::V6 => "invalid IPv6 address syntax".to_string(),
            },
            CidrError::Prefix(NumberError::Empty) => {
                "cannot parse integer from empty string".to_string()
            },
            CidrError::Prefix(NumberError::InvalidDigit) => {
                "invalid digit found in string".to_string()
            },
            CidrError::Prefix(NumberError::TooLarge) => {
                "number too large to fit in target type".to_string()
            },
            CidrError::PrefixTooLong(prefix) => {
                let mut text: String = match family {
                    Family::V4 => "Invalid IPv4 prefix: ".to_string(),
                    Family::V6 => "Invalid IPv6 prefix: ".to_string(),
                };
                let digits: Vec<char> = decimal_chars(*prefix as u128);
                text.append(to_text(&digits).as_str());
                text
            },
        }
    }
}

/// What is wrong with a prefix length that is longer than an address.
pub open spec fn prefix_error(prefix: nat) -> CidrError {
    if prefix <= 255 {
        CidrError::PrefixTooLong(prefix as u8)
    } else {
        CidrError::Prefix(NumberError::TooLarge)
    }
}

/// An address, a slash and a prefix length within the address's width read back
/// as that block, and a longer prefix length is refused, for both kinds of address.
pub proof fn law_cidr_round_trip(low: u32, high: u128, prefix: nat)
    ensures
        v4_cidr(v4_text(low).push('/') + decimal(prefix)) == if prefix <= 32 {
            Ok::<(u32, u8), CidrError>((low, prefix as u8))
        } else {
            Err(prefix_error(prefix))
        },
        v6_cidr(v6_text(high).push('/') + decimal(prefix)) == if prefix <= 128 {
            Ok::<(u128, u8), CidrError>((high, prefix as u8))
        } else {
            Err(prefix_error(prefix))
        },
{
    crate::address::law_v4_round_trip(low);
    crate::address::law_v6_round_trip(high);
    law_decimal_round_trip(prefix, 255);
    crate::address::lemma_no_slash(low, high);
    lemma_halves(v4_text(low), decimal(prefix));
    lemma_halves(v6_text(high), decimal(prefix));
}

/// The first slash is found where it stands.
proof fn lemma_halves(address: Seq<char>, prefix: Seq<char>)
    requires
        !address.contains('/'),
    ensures
        halves(address.push('/') + prefix) == Some((address, prefix)),
{
    let s = address.push('/') + prefix;
    let n = address.len() as int;
    assert(s.subrange(n, n + 1) =~= seq!['/']);
    assert forall|j: int| 0 <= j < n implies !occurs_at(s, seq!['/'], j) by {
        if occurs_at(s, seq!['/'], j) {
            assert(s.subrange(j, j + 1)[0] == '/');
            assert(address[j] == '/');
        }
    }
    lemma_find_at(s, seq!['/'], n);
    assert(s.take(n) =~= address);
    assert(s.skip(n + 1) =~= prefix);
}

/// A block is read from what stands before its first slash and what stands after it:
/// the address, and then a prefix length of at most 255 and at most the address's
/// width. Without a slash it is malformed.
pub proof fn law_cidr_by_halves(address: Seq<char>, prefix: Seq<char>)
    requires
        !address.contains('/'),
    ensures
        v4_cidr(address.push('/') + prefix) == match (
            v4_value(address),
            decimal_value(prefix, 255),
        ) {
            (None, _) => Err::<(u32, u8), CidrError>(CidrError::Address),
            (Some(_), Err(error)) => Err(CidrError::Prefix(error)),
            (Some(network), Ok(length)) => if length <= 32 {
                Ok((network, length as u8))
            } else {
                Err(CidrError::PrefixTooLong(length as u8))
            },
        },
        v6_cidr(address.push('/') + prefix) == match (
            v6_value(address),
            decimal_value(prefix, 255),
        ) {
            (None, _) => Err::<(u128, u8), CidrError>(CidrError::Address),
            (Some(_), Err(error)) => Err(CidrError::Prefix(error)),
            (Some(network), Ok(length)) => if length <= 128 {
                Ok((network, length as u8))
            } else {
                Err(CidrError::PrefixTooLong(length as u8))
            },
        },
        v4_cidr(address) == Err::<(u32, u8), CidrError>(CidrError::Malformed),
        v6_cidr(address) == Err::<(u128, u8), CidrError>(CidrError::Malformed),
{
    lemma_halves(address, prefix);
    if let Some(i) = find(address, seq!['/']) {
        crate::text::law_find(address, seq!['/'], i);
        assert(seq!['/'][0] == '/');
        assert(address[i + 0] == '/');
    }
}

/// What is said of a text that writes no block tells the whole text, or the whole
/// prefix length.
pub proof fn law_error_tells_text(cidr: Seq<char>, prefix: u8)
    ensures
        cidr_error_text(CidrError::Malformed, Family::V4, cidr) == "Invalid IPv4 CIDR: "@ + cidr,
        cidr_error_text(CidrError::Malformed, Family::V6, cidr) == "Invalid IPv6 CIDR: "@ + cidr,
        cidr_error_text(CidrError::PrefixTooLong(prefix), Family::V4, cidr)
            == "Invalid IPv4 prefix: "@ + decimal(prefix as nat),
        cidr_error_text(CidrError::PrefixTooLong(prefix), Family::V6, cidr)
            == "Invalid IPv6 prefix: "@ + decimal(prefix as nat),
{
}

} // verus!
