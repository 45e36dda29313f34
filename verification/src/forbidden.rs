//! The recipes excluded on the current branch of the search.

use crate::bitset::BitSet;
use crate::store::{
    masks_at, masks_len, masks_new, masks_of, masks_push, masks_with_capacity, MaskVec, MAX_MASKS,
};
use vstd::prelude::*;

verus! {

/// Whether one of the sets in `masks` lies within `ingredients`.
pub open spec fn blocked(masks: Seq<Set<nat>>, ingredients: Set<nat>) -> bool {
    exists|i: int| 0 <= i < masks.len() && (#[trigger] masks[i]).subset_of(ingredients)
}

/// The recipes excluded so far, in the order in which they were excluded.
pub struct ForbiddenChecker {
    forbidden_masks: MaskVec,
}

impl View for ForbiddenChecker {
    type V = Seq<Set<nat>>;

    closed spec fn view(&self) -> Seq<Set<nat>> {
        masks_of(self.forbidden_masks)
    }
}

impl ForbiddenChecker {
    #[verifier::type_invariant]
    spec fn inv(self) -> bool {
        masks_of(self.forbidden_masks).len() <= MAX_MASKS
    }

    /// A checker that excludes nothing.
    pub fn new() -> (c: Self)
        ensures
            c@ == Seq::<Set<nat>>::empty(),
    {
        ForbiddenChecker { forbidden_masks: masks_new() }
    }

    /// The number of excluded recipes.
    pub fn len(&self) -> (n: usize)
        ensures
            n == self@.len(),
            n <= MAX_MASKS,
    {
        proof {
            use_type_invariant(self);
        }
        masks_len(&self.forbidden_masks)
    }

    /// A checker that excludes what `base` excludes and `additional` besides.
    pub fn with_base(base: &ForbiddenChecker, additional: BitSet) -> (c: Self)
        requires
            base@.len() < MAX_MASKS,
        ensures
            c@ == base@.push(additional@),
    {
        let count = masks_len(&base.forbidden_masks);
        let mut forbidden_masks = masks_with_capacity(count + 1);
        let mut i: usize = 0;
        while i < count
            invariant
                i <= count,
                count == masks_of(base.forbidden_masks).len(),
                count < MAX_MASKS,
                masks_of(forbidden_masks) == masks_of(base.forbidden_masks).take(i as int),
            decreases count - i,
        {
            let mask = masks_at(&base.forbidden_masks, i).clone();
            masks_push(&mut forbidden_masks, mask);
            proof {
                assert(masks_of(base.forbidden_masks).take(i + 1) =~= masks_of(
                    base.forbidden_masks,
                ).take(i as int).push(masks_of(base.forbidden_masks)[i as int]));
            }
            i += 1;
        }
        proof {
            assert(masks_of(base.forbidden_masks).take(count as int) =~= masks_of(
                base.forbidden_masks,
            ));
        }
        masks_push(&mut forbidden_masks, additional);
        ForbiddenChecker { forbidden_masks }
    }

    /// Whether an excluded recipe lies within `ingredients`.
    pub fn is_forbidden(&self, ingredients: &BitSet) -> (b: bool)
        ensures
            b == blocked(self@, ingredients@),
    {
        let count = masks_len(&self.forbidden_masks);
        let mut i: usize = 0;
        while i < count
            invariant
                i <= count,
                count == masks_of(self.forbidden_masks).len(),
                forall|j: int|
                    0 <= j < i ==> !(#[trigger] masks_of(self.forbidden_masks)[j]).subset_of(
                        ingredients@,
                    ),
            decreases count - i,
        {
            if masks_at(&self.forbidden_masks, i).is_subset(ingredients) {
                return true;
            }
            i += 1;
        }
        false
    }
}

} // verus!
