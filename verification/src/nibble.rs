//! A nibble: a 4-bit unsigned value, the unit the KH-940 stores BCD digits
//! and packed pattern bits in.

use vstd::prelude::*;

verus! {

/// A 4-bit unsigned integer, kept in the low half of a byte.
///
/// Every value produced by this module satisfies `n@ <= 0xf`; functions that
/// depend on that bound state it explicitly.
#[derive(Clone, Copy, Debug, PartialEq, Eq)]
pub struct Nibble {
    v: u8,
}

impl View for Nibble {
    type V = u8;

    closed spec fn view(&self) -> u8 {
        self.v
    }
}

/// The high nibble of a byte.
pub open spec fn spec_hi(b: u8) -> u8 {
    b / 16
}

/// The low nibble of a byte.
pub open spec fn spec_lo(b: u8) -> u8 {
    b % 16
}

/// The byte with high nibble `hi` and low nibble `lo`.
pub open spec fn spec_combine(hi: u8, lo: u8) -> u8
    recommends
        hi <= 0xf,
        lo <= 0xf,
{
    (hi * 16 + lo) as u8
}

/// Every nibble of the sequence is in range.
pub open spec fn nibbles_valid(s: Seq<Nibble>) -> bool {
    forall|i: int| 0 <= i < s.len() ==> #[trigger] s[i]@ <= 0xf
}

/// The numeric values of a sequence of nibbles.
pub open spec fn nib_vals(s: Seq<Nibble>) -> Seq<u8> {
    s.map_values(|n: Nibble| n@)
}

impl Nibble {
    pub fn new(v: u8) -> (r: Nibble)
        requires
            v <= 0xf,
        ensures
            r@ == v,
    {
        Nibble { v }
    }

    /// The nibble's numeric value.
    pub fn value(self) -> (r: u8)
        ensures
            r == self@,
    {
        self.v
    }

    /// Splits a byte into its high and low nibbles.
    pub fn divide_byte(v: u8) -> (r: (Nibble, Nibble))
        ensures
            r.0@ == spec_hi(v),
            r.1@ == spec_lo(v),
            r.0@ <= 0xf,
            r.1@ <= 0xf,
    {
        proof {
            assert(v >> 4 == v / 16) by (bit_vector);
            assert(v & 0xf == v % 16) by (bit_vector);
        }
        (Nibble { v: v >> 4 }, Nibble { v: v & 0xf })
    }

    /// Joins a high and a low nibble back into one byte.
    pub fn combine_nibbles(n1: Nibble, n2: Nibble) -> (r: u8)
        requires
            n1@ <= 0xf,
            n2@ <= 0xf,
        ensures
            r == spec_combine(n1@, n2@),
    {
        let a = n1.v;
        let b = n2.v;
        proof {
            assert(a <= 0xf && b <= 0xf ==> ((a << 4) | b) == a * 16 + b) by (bit_vector);
        }
        (a << 4) | b
    }
}

/// Splitting a byte into nibbles and joining them again gives the byte back.
pub proof fn lemma_combine_divide_byte(b: u8)
    ensures
        spec_combine(spec_hi(b), spec_lo(b)) == b,
{
}

} // verus!
