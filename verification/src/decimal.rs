//! The decimal domain collaborator, supplied by the `rust_decimal` crate:
//! the canonical 16-byte serialization of a decimal, its inverse, and the
//! parsing of decimal literals. The codec never inspects a decimal's numeric
//! meaning; it relies only on the serialization round trip.

use vstd::prelude::*;
use core::str::FromStr;
use rust_decimal::Decimal;
use crate::codec::CodecError;

verus! {

#[verifier::external_type_specification]
#[verifier::external_body]
pub struct ExDecimal(Decimal);

/// The canonical 16-byte serialization of a decimal: a function of the value
/// alone.
pub uninterp spec fn dec_bytes(d: Decimal) -> Seq<u8>;

/// The decimal that a literal parses to, if any: a function of the text
/// alone.
pub uninterp spec fn parsed_dec(s: Seq<char>) -> Option<Decimal>;

/// Relies on `Decimal::serialize`: the canonical 16-byte form of the value.
#[verifier::external_body]
pub(crate) fn dec_serialize(d: &Decimal) -> (r: [u8; 16])
    ensures
        r@ == dec_bytes(*d),
        r@.len() == 16,
{
    d.serialize()
}

/// Relies on `Decimal::deserialize` inverting `Decimal::serialize`: whenever
/// some decimal's serialization equals the given bytes, that decimal comes
/// back. (Every reachable decimal carries canonical flags, which deserialize
/// reconstructs bit for bit.)
#[verifier::external_body]
pub(crate) fn dec_deserialize(bytes: [u8; 16]) -> (r: Decimal)
    ensures
        forall|d: Decimal| #[trigger] dec_bytes(d) == bytes@ ==> r == d,
{
    Decimal::deserialize(bytes)
}

/// Relies on `Decimal::from_str`: a pure parser of decimal literals.
#[verifier::external_body]
pub(crate) fn dec_from_str(s: &str) -> (r: Result<Decimal, CodecError>)
    ensures
        match r {
            Ok(d) => parsed_dec(s@) == Some(d),
            Err(e) => parsed_dec(s@) is None && e == CodecError::ParseFailed,
        },
{
    match Decimal::from_str(s) {
        Ok(d) => Ok(d),
        Err(_) => Err(CodecError::ParseFailed),
    }
}

/// Text with the leading and trailing `'0'` characters removed.
pub open spec fn drop_leading_zeros(s: Seq<char>) -> Seq<char>
    decreases s.len(),
{
    if s.len() > 0 && s[0] == '0' {
        drop_leading_zeros(s.drop_first())
    } else {
        s
    }
}

pub open spec fn drop_trailing_zeros(s: Seq<char>) -> Seq<char>
    decreases s.len(),
{
    if s.len() > 0 && s.last() == '0' {
        drop_trailing_zeros(s.drop_last())
    } else {
        s
    }
}

pub open spec fn trim_zeros(s: Seq<char>) -> Seq<char> {
    drop_trailing_zeros(drop_leading_zeros(s))
}

/// Relies on `str::trim_matches`: removes leading and trailing `'0'`
/// characters.
#[verifier::external_body]
pub(crate) fn trim_zeros_str(s: &str) -> (r: &str)
    ensures
        r@ == trim_zeros(s@),
{
    s.trim_matches('0')
}

} // verus!
