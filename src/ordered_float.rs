//! A total order on double-precision floating-point values, held as their
//! IEEE-754 bit patterns: numbers compare by value (the two zeros are
//! equal), any NaN lies above every number, and all NaNs are equal.

use core::cmp::Ordering;
use vstd::prelude::*;

verus! {

/// The bit pattern of the sign bit.
pub const SIGN_BIT: u64 = 0x8000_0000_0000_0000;

/// The magnitude bits of positive infinity; larger magnitudes are NaNs.
pub const INFINITY_BITS: u64 = 0x7FF0_0000_0000_0000;

/// The bits of `b` other than the sign bit.
pub open spec fn magnitude(b: u64) -> nat {
    (b as nat) % (SIGN_BIT as nat)
}

/// `b` encodes a NaN.
pub open spec fn is_nan_bits(b: u64) -> bool {
    magnitude(b) > INFINITY_BITS
}

/// The place of a non-NaN pattern among all numbers: the magnitude, negated
/// for negative numbers, so that both zeros sit at zero.
pub open spec fn signed_rank(b: u64) -> int {
    if b >= SIGN_BIT {
        -(magnitude(b) as int)
    } else {
        magnitude(b) as int
    }
}

/// The total order on bit patterns.
pub open spec fn total_cmp_bits(a: u64, b: u64) -> Ordering {
    if is_nan_bits(a) && is_nan_bits(b) {
        Ordering::Equal
    } else if is_nan_bits(a) {
        Ordering::Greater
    } else if is_nan_bits(b) {
        Ordering::Less
    } else if signed_rank(a) < signed_rank(b) {
        Ordering::Less
    } else if signed_rank(a) == signed_rank(b) {
        Ordering::Equal
    } else {
        Ordering::Greater
    }
}

/// A double-precision value, held as its bit pattern, with a total order.
#[derive(Clone, Copy, Debug)]
pub struct OrderedFloat {
    pub bits: u64,
}

impl OrderedFloat {
    /// The value whose IEEE-754 bit pattern is `bits`.
    pub fn from_bits(bits: u64) -> (r: OrderedFloat)
        ensures
            r.bits == bits,
    {
        OrderedFloat { bits }
    }

    /// The IEEE-754 bit pattern of the value.
    pub fn to_bits(&self) -> (r: u64)
        ensures
            r == self.bits,
    {
        self.bits
    }

    /// Whether the value is a NaN.
    pub fn is_nan(&self) -> (r: bool)
        ensures
            r == is_nan_bits(self.bits),
    {
        self.bits % SIGN_BIT > INFINITY_BITS
    }

    /// Compares two values in the total order.
    pub fn cmp(&self, other: &OrderedFloat) -> (r: Ordering)
        ensures
            r == total_cmp_bits(self.bits, other.bits),
    {
        let ka = self.sort_key();
        let kb = other.sort_key();
        if ka < kb {
            Ordering::Less
        } else if ka == kb {
            Ordering::Equal
        } else {
            Ordering::Greater
        }
    }

    /// Whether two values are equal in the total order.
    pub fn eq(&self, other: &OrderedFloat) -> (r: bool)
        ensures
            r <==> total_cmp_bits(self.bits, other.bits) == Ordering::Equal,
    {
        self.sort_key() == other.sort_key()
    }

    /// An unsigned key that orders as the values do: keys of two values
    /// compare as the values compare in the total order. Block heaps keyed
    /// by it extract floating-point distances in their order.
    pub fn sort_key(&self) -> (r: u64)
        ensures
            r == key_of(self.bits),
    {
        let m = self.bits % SIGN_BIT;
        if m > INFINITY_BITS {
            u64::MAX
        } else if self.bits >= SIGN_BIT {
            SIGN_BIT - m
        } else {
            SIGN_BIT + m
        }
    }
}

/// The key of a bit pattern: NaNs at the top, then numbers around the
/// middle of the range by their signed rank.
pub open spec fn key_of(b: u64) -> int {
    if is_nan_bits(b) {
        u64::MAX as int
    } else {
        SIGN_BIT as int + signed_rank(b)
    }
}

/// Keys order bit patterns as the total order does.
pub proof fn lemma_key_orders(a: u64, b: u64)
    ensures
        key_of(a) < key_of(b) <==> total_cmp_bits(a, b) == Ordering::Less,
        key_of(a) == key_of(b) <==> total_cmp_bits(a, b) == Ordering::Equal,
        key_of(a) > key_of(b) <==> total_cmp_bits(a, b) == Ordering::Greater,
{
}

} // verus!
