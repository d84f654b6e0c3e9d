//! Number literals of arbitrary size.

use num_bigint_dig::{BigInt, Sign};
use num_traits::ToPrimitive;
use vstd::prelude::*;

verus! {

/// A number literal: a sign and a magnitude in big-endian bytes.
#[derive(Debug, PartialEq, Eq)]
pub struct BigNumber {
    pub negative: bool,
    pub magnitude: Vec<u8>,
}

/// The natural number that big-endian `bytes` spell.
pub open spec fn be_value(bytes: Seq<u8>) -> nat
    decreases bytes.len(),
{
    if bytes.len() == 0 {
        0
    } else {
        be_value(bytes.drop_last()) * 256 + bytes.last() as nat
    }
}

/// The integer that a sign and a big-endian magnitude spell.
pub open spec fn signed_value(negative: bool, magnitude: Seq<u8>) -> int {
    if negative {
        -(be_value(magnitude) as int)
    } else {
        be_value(magnitude) as int
    }
}

/// The 32-bit value of a literal, where it has one.
pub open spec fn literal_to_u32(negative: bool, magnitude: Seq<u8>) -> Option<u32> {
    let v = signed_value(negative, magnitude);
    if 0 <= v <= u32::MAX {
        Some(v as u32)
    } else {
        None
    }
}

/// Builds a `num_bigint_dig::BigInt` with `BigInt::from_bytes_be` and asks it
/// for `num_traits::ToPrimitive::to_u32`. Trusted: the result is the integer
/// that sign and magnitude spell when it lies in `0..=u32::MAX` (a zero
/// magnitude is zero whatever the sign), and `None` otherwise.
#[verifier::external_body]
fn bigint_to_u32(negative: bool, magnitude: &Vec<u8>) -> (r: Option<u32>)
    ensures
        r == literal_to_u32(negative, magnitude@),
{
    let sign = if negative { Sign::Minus } else { Sign::Plus };
    BigInt::from_bytes_be(sign, magnitude.as_slice()).to_u32()
}

impl BigNumber {
    /// The integer this literal stands for.
    pub open spec fn value(&self) -> int {
        signed_value(self.negative, self.magnitude@)
    }

    /// The literal as an unsigned 32-bit value; `None` when it is negative or
    /// does not fit.
    pub fn to_u32(&self) -> (r: Option<u32>)
        ensures
            r == literal_to_u32(self.negative, self.magnitude@),
    {
        bigint_to_u32(self.negative, &self.magnitude)
    }

    /// The literal for a 32-bit value.
    pub fn from_u32(v: u32) -> (n: BigNumber)
        ensures
            n.value() == v,
            !n.negative,
            n.magnitude@ == seq![
                (v >> 24) as u8,
                ((v >> 16) & 0xff) as u8,
                ((v >> 8) & 0xff) as u8,
                (v & 0xff) as u8,
            ],
    {
        let b0: u8 = (v >> 24) as u8;
        let b1: u8 = ((v >> 16) & 0xff) as u8;
        let b2: u8 = ((v >> 8) & 0xff) as u8;
        let b3: u8 = (v & 0xff) as u8;
        let mut magnitude: Vec<u8> = Vec::new();
        magnitude.push(b0);
        magnitude.push(b1);
        magnitude.push(b2);
        magnitude.push(b3);
        proof {
            assert(v >> 24 < 256 && (v >> 16) & 0xff < 256 && (v >> 8) & 0xff < 256 && v & 0xff
                < 256) by (bit_vector);
            assert(v == (v >> 24) * 0x100_0000 + ((v >> 16) & 0xff) * 0x1_0000 + ((v >> 8) & 0xff)
                * 0x100 + (v & 0xff)) by (bit_vector);
            let s = magnitude@;
            let s3 = s.drop_last();
            let s2 = s3.drop_last();
            let s1 = s2.drop_last();
            assert(s1.drop_last().len() == 0);
            assert(be_value(s1.drop_last()) == 0);
            assert(be_value(s1) == b0 as nat);
            assert(be_value(s2) == b0 as nat * 256 + b1 as nat);
            assert(be_value(s3) == (b0 as nat * 256 + b1 as nat) * 256 + b2 as nat);
            assert(be_value(s) == ((b0 as nat * 256 + b1 as nat) * 256 + b2 as nat) * 256
                + b3 as nat);
        }
        assert(magnitude@ =~= seq![b0, b1, b2, b3]);
        BigNumber { negative: false, magnitude }
    }
}

} // verus!
