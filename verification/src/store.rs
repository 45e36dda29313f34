//! Word storage for the dense set: a `SmallVec` reached through a small set of
//! calls whose effect on the stored words is stated once, here.

use crate::bitset::BitSet;
use rustc_hash::{FxHashMap, FxHashSet};
use smallvec::SmallVec;
use vstd::prelude::*;

verus! {

/// The largest number of words a set over `u32` elements can need.
pub const MAX_WORDS: usize = 0x400_0000;

/// A vector of 64-bit words that keeps up to three of them inline.
///
/// The vector itself is `smallvec::SmallVec<[u64; 3]>`; nothing in this crate
/// looks inside it except through the functions of this module.
#[verifier::external_body]
#[derive(Debug, Hash)]
pub struct WordVec {
    inner: SmallVec<[u64; 3]>,
}

/// The words that a word vector holds, first word first.
pub uninterp spec fn words_of(v: WordVec) -> Seq<u64>;

/// `SmallVec::new`: a vector that holds no word.
#[verifier::external_body]
pub(crate) fn words_new() -> (v: WordVec)
    ensures
        words_of(v) == Seq::<u64>::empty(),
{
    WordVec { inner: SmallVec::new() }
}

/// `SmallVec::with_capacity`: a vector that holds no word; room for `n` is set
/// aside, which shows in no result.
#[verifier::external_body]
pub(crate) fn words_with_capacity(n: usize) -> (v: WordVec)
    requires
        n <= MAX_WORDS,
    ensures
        words_of(v) == Seq::<u64>::empty(),
{
    WordVec { inner: SmallVec::with_capacity(n) }
}

/// `SmallVec::len`: the number of words held.
#[verifier::external_body]
pub(crate) fn words_len(v: &WordVec) -> (n: usize)
    ensures
        n == words_of(*v).len(),
{
    v.inner.len()
}

/// Slice `get` through `SmallVec`'s deref: the word at `i`, or `None` past the end.
#[verifier::external_body]
pub(crate) fn words_get(v: &WordVec, i: usize) -> (r: Option<u64>)
    ensures
        r == if i < words_of(*v).len() {
            Some(words_of(*v)[i as int])
        } else {
            None
        },
{
    v.inner.get(i).copied()
}

/// Slice indexing through `SmallVec`'s deref: the word at `i`.
#[verifier::external_body]
pub(crate) fn words_at(v: &WordVec, i: usize) -> (w: u64)
    requires
        i < words_of(*v).len(),
    ensures
        w == words_of(*v)[i as int],
{
    v.inner[i]
}

/// Slice index assignment through `SmallVec`'s deref-mut: replaces the word at `i`.
#[verifier::external_body]
pub(crate) fn words_set(v: &mut WordVec, i: usize, w: u64)
    requires
        i < words_of(*old(v)).len(),
    ensures
        words_of(*final(v)) == words_of(*old(v)).update(i as int, w),
{
    v.inner[i] = w;
}

/// `SmallVec::push`: appends one word.
#[verifier::external_body]
pub(crate) fn words_push(v: &mut WordVec, w: u64)
    requires
        words_of(*old(v)).len() < MAX_WORDS,
    ensures
        words_of(*final(v)) == words_of(*old(v)).push(w),
{
    v.inner.push(w)
}

/// `SmallVec::pop`: removes the last word and returns it, or returns `None`
/// and changes nothing where there is no word.
#[verifier::external_body]
pub(crate) fn words_pop(v: &mut WordVec) -> (r: Option<u64>)
    ensures
        words_of(*old(v)).len() == 0 ==> r.is_none() && words_of(*final(v)) == words_of(*old(v)),
        words_of(*old(v)).len() > 0 ==> r == Some(words_of(*old(v)).last()) && words_of(*final(v))
            == words_of(*old(v)).drop_last(),
{
    v.inner.pop()
}

/// Slice `last` through `SmallVec`'s deref: the last word, or `None` where
/// there is no word.
#[verifier::external_body]
pub(crate) fn words_last(v: &WordVec) -> (r: Option<u64>)
    ensures
        r == if words_of(*v).len() > 0 {
            Some(words_of(*v).last())
        } else {
            None
        },
{
    v.inner.last().copied()
}

/// `SmallVec::resize`: cuts the vector to `n` words, or fills it up to `n`
/// words with copies of `w`.
#[verifier::external_body]
pub(crate) fn words_resize(v: &mut WordVec, n: usize, w: u64)
    requires
        n <= MAX_WORDS,
    ensures
        words_of(*final(v)).len() == n,
        forall|i: int|
            0 <= i < n ==> #[trigger] words_of(*final(v))[i] == if i < words_of(*old(v)).len() {
                words_of(*old(v))[i]
            } else {
                w
            },
{
    v.inner.resize(n, w)
}

/// `SmallVec::truncate`: keeps the first `n` words; changes nothing where
/// there are no more than `n`.
#[verifier::external_body]
pub(crate) fn words_truncate(v: &mut WordVec, n: usize)
    ensures
        words_of(*final(v)) == if n < words_of(*old(v)).len() {
            words_of(*old(v)).take(n as int)
        } else {
            words_of(*old(v))
        },
{
    v.inner.truncate(n)
}

/// `SmallVec::clone`: a vector that holds the same words.
#[verifier::external_body]
pub(crate) fn words_clone(v: &WordVec) -> (r: WordVec)
    ensures
        words_of(r) == words_of(*v),
{
    WordVec { inner: v.inner.clone() }
}

/// `SmallVec`'s `==`: whether two vectors hold the same words in the same order.
#[verifier::external_body]
pub(crate) fn words_eq(a: &WordVec, b: &WordVec) -> (r: bool)
    ensures
        r == (words_of(*a) == words_of(*b)),
{
    a.inner == b.inner
}

/// The largest number of sets a mask vector is asked to hold.
pub const MAX_MASKS: usize = 0x200_0000;

/// A vector of sets that keeps up to eight of them inline.
///
/// The vector itself is `smallvec::SmallVec<[BitSet; 8]>`; nothing in this
/// crate looks inside it except through the functions of this module.
#[verifier::external_body]
pub struct MaskVec {
    inner: SmallVec<[BitSet; 8]>,
}

/// The sets that a mask vector holds, first set first.
pub uninterp spec fn masks_of(v: MaskVec) -> Seq<Set<nat>>;

/// `SmallVec::new`: a vector that holds no set.
#[verifier::external_body]
pub(crate) fn masks_new() -> (v: MaskVec)
    ensures
        masks_of(v) == Seq::<Set<nat>>::empty(),
{
    MaskVec { inner: SmallVec::new() }
}

/// `SmallVec::with_capacity`: a vector that holds no set; room for `n` is set
/// aside, which shows in no result.
#[verifier::external_body]
pub(crate) fn masks_with_capacity(n: usize) -> (v: MaskVec)
    requires
        n <= MAX_MASKS,
    ensures
        masks_of(v) == Seq::<Set<nat>>::empty(),
{
    MaskVec { inner: SmallVec::with_capacity(n) }
}

/// `SmallVec::len`: the number of sets held.
#[verifier::external_body]
pub(crate) fn masks_len(v: &MaskVec) -> (n: usize)
    ensures
        n == masks_of(*v).len(),
{
    v.inner.len()
}

/// Slice indexing through `SmallVec`'s deref: the set at `i`.
#[verifier::external_body]
pub(crate) fn masks_at(v: &MaskVec, i: usize) -> (s: &BitSet)
    requires
        i < masks_of(*v).len(),
    ensures
        s@ == masks_of(*v)[i as int],
{
    &v.inner[i]
}

/// `SmallVec::push`: appends one set.
#[verifier::external_body]
pub(crate) fn masks_push(v: &mut MaskVec, s: BitSet)
    requires
        masks_of(*old(v)).len() < MAX_MASKS,
    ensures
        masks_of(*final(v)) == masks_of(*old(v)).push(s@),
{
    v.inner.push(s)
}

/// The hasher that `FxHashMap` and `FxHashSet` are built with.
#[verifier::external_type_specification]
#[verifier::external_body]
pub struct ExFxBuildHasher(rustc_hash::FxBuildHasher);

/// The recipes that a hash set holds, each taken as the set of its ingredients.
pub uninterp spec fn recipe_views(s: FxHashSet<BitSet>) -> Set<Set<nat>>;

/// Walks the set with `HashSet::iter` and hands out each recipe, in the
/// order of the walk, of which nothing is said.
#[verifier::external_body]
pub(crate) fn recipes_in(s: &FxHashSet<BitSet>) -> (v: Vec<&BitSet>)
    ensures
        forall|r: Set<nat>|
            recipe_views(*s).contains(r) <==> exists|i: int| 0 <= i < v@.len() && v@[i]@ == r,
{
    s.iter().collect()
}

/// The number of recipes that a hash set holds.
pub uninterp spec fn recipe_count(s: FxHashSet<BitSet>) -> nat;

/// `HashSet::len`: the number of recipes held, which is no less than the
/// number of different ingredient sets among them, and 0 exactly where there
/// is none.
#[verifier::external_body]
pub(crate) fn recipes_len(s: &FxHashSet<BitSet>) -> (n: usize)
    ensures
        n == recipe_count(*s),
        recipe_views(*s).len() <= n,
        (n == 0) == (recipe_views(*s) == Set::<Set<nat>>::empty()),
{
    s.len()
}

/// The count that a map holds for `key`, 0 where it holds none.
pub open spec fn count_at(m: Map<u32, usize>, key: u32) -> usize {
    if m.contains_key(key) {
        m[key]
    } else {
        0
    }
}

/// `HashMap::default`: a map that holds no key.
#[verifier::external_body]
pub(crate) fn counts_new() -> (m: FxHashMap<u32, usize>)
    ensures
        forall|key: u32| !m@.contains_key(key),
{
    FxHashMap::default()
}

/// `HashMap::get`: the value held for `key`, if any.
#[verifier::external_body]
pub(crate) fn counts_get(m: &FxHashMap<u32, usize>, key: u32) -> (r: Option<usize>)
    ensures
        r == if m@.contains_key(key) {
            Some(m@[key])
        } else {
            None
        },
{
    m.get(&key).copied()
}

/// `HashMap::insert`: holds `value` for `key` from now on, in place of what
/// was held for it.
#[verifier::external_body]
pub(crate) fn counts_insert(m: &mut FxHashMap<u32, usize>, key: u32, value: usize)
    ensures
        final(m)@ == old(m)@.insert(key, value),
{
    m.insert(key, value);
}

} // verus!
