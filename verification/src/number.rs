//! Reading the value of a float literal.

use vstd::prelude::*;
use crate::grammar::is_float_literal;

verus! {

/// The bit pattern of the 32-bit float that a float literal denotes.
pub uninterp spec fn float_literal_bits(literal: Seq<char>) -> u32;

/// Reads a float literal with `nom::number::complete::float` and returns
/// the bits of the result.
///
/// Not proved: that `float` accepts every text made of an optional minus
/// sign, digits, a point and digits, and that the number it yields depends
/// on that text alone.
#[verifier::external_body]
pub(crate) fn read_float_bits(literal: &str) -> (bits: u32)
    requires
        is_float_literal(literal@),
    ensures
        bits == float_literal_bits(literal@),
{
    let (_, number) = nom::number::complete::float::<&str, nom::error::Error<&str>>(
        literal,
    ).unwrap();
    number.to_bits()
}

} // verus!
