//! The operators `|`, `&` and `-` on sets and on references to sets: union,
//! intersection and difference.
//!
//! What an operator returns is stated on the operator itself, by the view of
//! the result; the operators make no use of the value-level specifications
//! that the standard operator traits offer.

use crate::bitset::BitSet;
use vstd::prelude::*;
use vstd::std_specs::ops::{BitAndSpecImpl, BitOrSpecImpl, SubSpecImpl};

verus! {

impl core::ops::BitOr for BitSet {
    type Output = Self;

    /// The elements that are in either set.
    #[inline]
    fn bitor(self, rhs: BitSet) -> (r: Self)
        ensures
            r@ == self@.union(rhs@),
            r.is_canonical(),
    {
        BitSet::union(&self, &rhs)
    }
}

impl BitOrSpecImpl for BitSet {
    open spec fn obeys_bitor_spec() -> bool {
        false
    }

    open spec fn bitor_req(self, rhs: BitSet) -> bool {
        true
    }

    open spec fn bitor_spec(self, rhs: BitSet) -> Self {
        self
    }
}

impl core::ops::BitOr<&BitSet> for BitSet {
    type Output = Self;

    /// The elements that are in either set.
    #[inline]
    fn bitor(self, rhs: &BitSet) -> (r: Self)
        ensures
            r@ == self@.union(rhs@),
            r.is_canonical(),
    {
        BitSet::union(&self, rhs)
    }
}

impl BitOrSpecImpl<&BitSet> for BitSet {
    open spec fn obeys_bitor_spec() -> bool {
        false
    }

    open spec fn bitor_req(self, rhs: &BitSet) -> bool {
        true
    }

    open spec fn bitor_spec(self, rhs: &BitSet) -> Self {
        self
    }
}

impl core::ops::BitOr<BitSet> for &BitSet {
    type Output = BitSet;

    /// The elements that are in either set.
    #[inline]
    fn bitor(self, rhs: BitSet) -> (r: BitSet)
        ensures
            r@ == self@.union(rhs@),
            r.is_canonical(),
    {
        BitSet::union(self, &rhs)
    }
}

impl BitOrSpecImpl<BitSet> for &BitSet {
    open spec fn obeys_bitor_spec() -> bool {
        false
    }

    open spec fn bitor_req(self, rhs: BitSet) -> bool {
        true
    }

    open spec fn bitor_spec(self, rhs: BitSet) -> BitSet {
        *self
    }
}

impl core::ops::BitOr<&BitSet> for &BitSet {
    type Output = BitSet;

    /// The elements that are in either set.
    #[inline]
    fn bitor(self, rhs: &BitSet) -> (r: BitSet)
        ensures
            r@ == self@.union(rhs@),
            r.is_canonical(),
    {
        BitSet::union(self, rhs)
    }
}

impl BitOrSpecImpl<&BitSet> for &BitSet {
    open spec fn obeys_bitor_spec() -> bool {
        false
    }

    open spec fn bitor_req(self, rhs: &BitSet) -> bool {
        true
    }

    open spec fn bitor_spec(self, rhs: &BitSet) -> BitSet {
        *self
    }
}

impl core::ops::BitAnd for BitSet {
    type Output = Self;

    /// The elements that are in both sets.
    #[inline]
    fn bitand(self, rhs: BitSet) -> (r: Self)
        ensures
            r@ == self@.intersect(rhs@),
            r.is_canonical(),
    {
        BitSet::intersection(&self, &rhs)
    }
}

impl BitAndSpecImpl for BitSet {
    open spec fn obeys_bitand_spec() -> bool {
        false
    }

    open spec fn bitand_req(self, rhs: BitSet) -> bool {
        true
    }

    open spec fn bitand_spec(self, rhs: BitSet) -> Self {
        self
    }
}

impl core::ops::BitAnd<&BitSet> for BitSet {
    type Output = Self;

    /// The elements that are in both sets.
    #[inline]
    fn bitand(self, rhs: &BitSet) -> (r: Self)
        ensures
            r@ == self@.intersect(rhs@),
            r.is_canonical(),
    {
        BitSet::intersection(&self, rhs)
    }
}

impl BitAndSpecImpl<&BitSet> for BitSet {
    open spec fn obeys_bitand_spec() -> bool {
        false
    }

    open spec fn bitand_req(self, rhs: &BitSet) -> bool {
        true
    }

    open spec fn bitand_spec(self, rhs: &BitSet) -> Self {
        self
    }
}

impl core::ops::BitAnd<BitSet> for &BitSet {
    type Output = BitSet;

    /// The elements that are in both sets.
    #[inline]
    fn bitand(self, rhs: BitSet) -> (r: BitSet)
        ensures
            r@ == self@.intersect(rhs@),
            r.is_canonical(),
    {
        BitSet::intersection(self, &rhs)
    }
}

impl BitAndSpecImpl<BitSet> for &BitSet {
    open spec fn obeys_bitand_spec() -> bool {
        false
    }

    open spec fn bitand_req(self, rhs: BitSet) -> bool {
        true
    }

    open spec fn bitand_spec(self, rhs: BitSet) -> BitSet {
        *self
    }
}

impl core::ops::BitAnd<&BitSet> for &BitSet {
    type Output = BitSet;

    /// The elements that are in both sets.
    #[inline]
    fn bitand(self, rhs: &BitSet) -> (r: BitSet)
        ensures
            r@ == self@.intersect(rhs@),
            r.is_canonical(),
    {
        BitSet::intersection(self, rhs)
    }
}

impl BitAndSpecImpl<&BitSet> for &BitSet {
    open spec fn obeys_bitand_spec() -> bool {
        false
    }

    open spec fn bitand_req(self, rhs: &BitSet) -> bool {
        true
    }

    open spec fn bitand_spec(self, rhs: &BitSet) -> BitSet {
        *self
    }
}

impl core::ops::Sub for BitSet {
    type Output = Self;

    /// The elements of the first set that are not in the second.
    #[inline]
    fn sub(self, rhs: BitSet) -> (r: Self)
        ensures
            r@ == self@.difference(rhs@),
            r.is_canonical(),
    {
        BitSet::difference(&self, &rhs)
    }
}

impl SubSpecImpl for BitSet {
    open spec fn obeys_sub_spec() -> bool {
        false
    }

    open spec fn sub_req(self, rhs: BitSet) -> bool {
        true
    }

    open spec fn sub_spec(self, rhs: BitSet) -> Self {
        self
    }
}

impl core::ops::Sub<&BitSet> for BitSet {
    type Output = Self;

    /// The elements of the first set that are not in the second.
    #[inline]
    fn sub(self, rhs: &BitSet) -> (r: Self)
        ensures
            r@ == self@.difference(rhs@),
            r.is_canonical(),
    {
        BitSet::difference(&self, rhs)
    }
}

impl SubSpecImpl<&BitSet> for BitSet {
    open spec fn obeys_sub_spec() -> bool {
        false
    }

    open spec fn sub_req(self, rhs: &BitSet) -> bool {
        true
    }

    open spec fn sub_spec(self, rhs: &BitSet) -> Self {
        self
    }
}

impl core::ops::Sub<BitSet> for &BitSet {
    type Output = BitSet;

    /// The elements of the first set that are not in the second.
    #[inline]
    fn sub(self, rhs: BitSet) -> (r: BitSet)
        ensures
            r@ == self@.difference(rhs@),
            r.is_canonical(),
    {
        BitSet::difference(self, &rhs)
    }
}

impl SubSpecImpl<BitSet> for &BitSet {
    open spec fn obeys_sub_spec() -> bool {
        false
    }

    open spec fn sub_req(self, rhs: BitSet) -> bool {
        true
    }

    open spec fn sub_spec(self, rhs: BitSet) -> BitSet {
        *self
    }
}

impl core::ops::Sub<&BitSet> for &BitSet {
    type Output = BitSet;

    /// The elements of the first set that are not in the second.
    #[inline]
    fn sub(self, rhs: &BitSet) -> (r: BitSet)
        ensures
            r@ == self@.difference(rhs@),
            r.is_canonical(),
    {
        BitSet::difference(self, rhs)
    }
}

impl SubSpecImpl<&BitSet> for &BitSet {
    open spec fn obeys_sub_spec() -> bool {
        false
    }

    open spec fn sub_req(self, rhs: &BitSet) -> bool {
        true
    }

    open spec fn sub_spec(self, rhs: &BitSet) -> BitSet {
        *self
    }
}

} // verus!
