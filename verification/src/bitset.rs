//! A dense set of non-negative integers packed into 64-bit words.

use crate::bits::{
    bit_at, count_ones, lemma_bit_test, lemma_bits_binary, lemma_bits_single,
    lemma_highest_difference, lemma_nonzero_has_bit, lemma_ones_below_bound, lemma_same_bits,
    lemma_wide_bits, ones_below, wide_bit_at,
};
use crate::order::{
    decides, lemma_precedes_asymmetric, lemma_precedes_irreflexive, order_of, precedes, Order,
};
use std::cmp::Ordering;
use vstd::std_specs::cmp::{PartialEqSpecImpl, PartialOrdSpecImpl};
use crate::store::{
    words_at, words_clone, words_eq, words_get, words_last, words_len, words_new, words_of, words_pop,
    words_push, words_resize, words_set, words_truncate, words_with_capacity, WordVec, MAX_WORDS,
};
use vstd::prelude::*;

verus! {

/// Word `i` of a word sequence, read as 0 past its end.
pub open spec fn word_or_zero(words: Seq<u64>, i: nat) -> u64 {
    if i < words.len() {
        words[i as int]
    } else {
        0
    }
}

/// The elements that a word sequence stands for: `e` is one of them where
/// bit `e % 64` of word `e / 64` is set.
pub open spec fn members(words: Seq<u64>) -> Set<nat> {
    Set::new(|e: nat| bit_at(word_or_zero(words, e / 64), e % 64))
}

/// The elements of word `n` that lie among the word's `k` lowest bits.
pub open spec fn low_block(w: u64, n: nat, k: nat) -> Set<nat> {
    Set::new(|e: nat| e / 64 == n && e % 64 < k && bit_at(w, e % 64))
}

/// The elements that the first `n` words stand for.
pub open spec fn prefix_members(words: Seq<u64>, n: nat) -> Set<nat> {
    Set::new(|e: nat| e / 64 < n && bit_at(word_or_zero(words, e / 64), e % 64))
}

/// The number of set bits in the first `n` words.
pub open spec fn ones_upto(words: Seq<u64>, n: nat) -> nat
    decreases n,
{
    if n == 0 {
        0
    } else {
        ones_upto(words, (n - 1) as nat) + ones_below(word_or_zero(words, (n - 1) as nat), 64)
    }
}

/// The first `n` words have no more than 64 set bits each.
pub proof fn lemma_ones_upto_bound(words: Seq<u64>, n: nat)
    ensures
        ones_upto(words, n) <= 64 * n,
    decreases n,
{
    if n > 0 {
        lemma_ones_upto_bound(words, (n - 1) as nat);
        lemma_ones_below_bound(word_or_zero(words, (n - 1) as nat), 64);
    }
}

/// A word holds as many elements as it has set bits.
pub proof fn lemma_low_block(w: u64, n: nat, k: nat)
    requires
        k <= 64,
    ensures
        low_block(w, n, k).finite(),
        low_block(w, n, k).len() == ones_below(w, k),
    decreases k,
{
    if k == 0 {
        assert(low_block(w, n, k) =~= Set::<nat>::empty());
    } else {
        let j = (k - 1) as nat;
        lemma_low_block(w, n, j);
        let e = 64 * n + j;
        assert(e / 64 == n && e % 64 == j);
        if bit_at(w, j) {
            assert(low_block(w, n, k) =~= low_block(w, n, j).insert(e));
        } else {
            assert(low_block(w, n, k) =~= low_block(w, n, j));
        }
    }
}

/// The first `n` words hold as many elements as they have set bits.
pub proof fn lemma_prefix_members(words: Seq<u64>, n: nat)
    ensures
        prefix_members(words, n).finite(),
        prefix_members(words, n).len() == ones_upto(words, n),
    decreases n,
{
    if n == 0 {
        assert(prefix_members(words, n) =~= Set::<nat>::empty());
    } else {
        let m = (n - 1) as nat;
        lemma_prefix_members(words, m);
        lemma_low_block(word_or_zero(words, m), m, 64);
        let a = prefix_members(words, m);
        let b = low_block(word_or_zero(words, m), m, 64);
        assert(prefix_members(words, n) =~= a + b);
        assert(a.disjoint(b));
        vstd::set_lib::lemma_set_disjoint_lens(a, b);
    }
}

/// A word sequence stands for a finite set, of as many elements as the words
/// have set bits.
pub proof fn lemma_members_len(words: Seq<u64>)
    ensures
        members(words).finite(),
        members(words).len() == ones_upto(words, words.len()),
{
    lemma_prefix_members(words, words.len());
    lemma_bits_single(0);
    assert(members(words) =~= prefix_members(words, words.len()));
}

/// Word sequences that agree word by word, read as 0 past the end, stand for
/// the same set.
pub proof fn lemma_members_same(a: Seq<u64>, b: Seq<u64>)
    requires
        forall|i: nat| #[trigger] word_or_zero(a, i) == word_or_zero(b, i),
    ensures
        members(a) == members(b),
{
    assert(members(a) =~= members(b));
}

/// Or-ing word by word unites the sets.
pub proof fn lemma_members_union(r: Seq<u64>, a: Seq<u64>, b: Seq<u64>)
    requires
        forall|i: nat| #[trigger] word_or_zero(r, i) == word_or_zero(a, i) | word_or_zero(b, i),
    ensures
        members(r) == members(a).union(members(b)),
{
    assert forall|e: nat| members(r).contains(e) == (members(a).contains(e) || members(
        b,
    ).contains(e)) by {
        lemma_bits_binary(word_or_zero(a, e / 64), word_or_zero(b, e / 64));
    }
    assert(members(r) =~= members(a).union(members(b)));
}

/// And-ing word by word intersects the sets.
pub proof fn lemma_members_intersect(r: Seq<u64>, a: Seq<u64>, b: Seq<u64>)
    requires
        forall|i: nat| #[trigger] word_or_zero(r, i) == word_or_zero(a, i) & word_or_zero(b, i),
    ensures
        members(r) == members(a).intersect(members(b)),
{
    assert forall|e: nat| members(r).contains(e) == (members(a).contains(e) && members(
        b,
    ).contains(e)) by {
        lemma_bits_binary(word_or_zero(a, e / 64), word_or_zero(b, e / 64));
    }
    assert(members(r) =~= members(a).intersect(members(b)));
}

/// And-ing with the complement word by word takes the second set from the first.
pub proof fn lemma_members_difference(r: Seq<u64>, a: Seq<u64>, b: Seq<u64>)
    requires
        forall|i: nat| #[trigger] word_or_zero(r, i) == word_or_zero(a, i) & !word_or_zero(b, i),
    ensures
        members(r) == members(a).difference(members(b)),
{
    assert forall|e: nat| members(r).contains(e) == (members(a).contains(e) && !members(
        b,
    ).contains(e)) by {
        lemma_bits_binary(word_or_zero(a, e / 64), word_or_zero(b, e / 64));
    }
    assert(members(r) =~= members(a).difference(members(b)));
}

/// A set is within another exactly where each word is within the other's word.
pub proof fn lemma_members_subset(a: Seq<u64>, b: Seq<u64>)
    ensures
        members(a).subset_of(members(b)) <==> forall|i: nat|
            #[trigger] word_or_zero(a, i) & !word_or_zero(b, i) == 0,
{
    lemma_bits_single(0);
    if members(a).subset_of(members(b)) {
        assert forall|i: nat| #[trigger] word_or_zero(a, i) & !word_or_zero(b, i) == 0 by {
            let x = word_or_zero(a, i) & !word_or_zero(b, i);
            if x != 0 {
                lemma_nonzero_has_bit(x);
                lemma_bits_binary(word_or_zero(a, i), word_or_zero(b, i));
                let j = x.trailing_zeros() as nat;
                let e = 64 * i + j;
                assert(e / 64 == i && e % 64 == j);
                assert(members(a).contains(e));
                assert(members(b).contains(e));
            }
        }
    }
    if forall|i: nat| #[trigger] word_or_zero(a, i) & !word_or_zero(b, i) == 0 {
        assert forall|e: nat| members(a).contains(e) implies members(b).contains(e) by {
            let i = e / 64;
            lemma_bits_binary(word_or_zero(a, i), word_or_zero(b, i));
            assert(word_or_zero(a, i) & !word_or_zero(b, i) == 0);
            assert(!bit_at(word_or_zero(a, i) & !word_or_zero(b, i), e % 64));
        }
    }
}

/// Two word sequences without a zero word at the end that stand for the same
/// set are the same sequence.
pub proof fn lemma_members_unique(a: Seq<u64>, b: Seq<u64>)
    requires
        a.len() > 0 ==> a.last() != 0,
        b.len() > 0 ==> b.last() != 0,
        members(a) == members(b),
    ensures
        a == b,
{
    lemma_bits_single(0);
    assert forall|i: nat| #[trigger] word_or_zero(a, i) == word_or_zero(b, i) by {
        let x = word_or_zero(a, i);
        let y = word_or_zero(b, i);
        assert forall|j: nat| j < 64 implies bit_at(x, j) == bit_at(y, j) by {
            let e = 64 * i + j;
            assert(e / 64 == i && e % 64 == j);
            assert(members(a).contains(e) == bit_at(x, j));
            assert(members(b).contains(e) == bit_at(y, j));
        }
        lemma_same_bits(x, y);
    }
    if a.len() > b.len() {
        assert(word_or_zero(a, (a.len() - 1) as nat) == word_or_zero(b, (a.len() - 1) as nat));
    }
    if b.len() > a.len() {
        assert(word_or_zero(a, (b.len() - 1) as nat) == word_or_zero(b, (b.len() - 1) as nat));
    }
    assert forall|i: int| 0 <= i < a.len() implies a[i] == b[i] by {
        assert(word_or_zero(a, i as nat) == word_or_zero(b, i as nat));
    }
    assert(a =~= b);
}

/// Where two word sequences agree above word `i` and differ in word `i`, the
/// one with the smaller word `i` stands for the set that comes first.
pub proof fn lemma_words_decide(a: Seq<u64>, b: Seq<u64>, i: nat)
    requires
        forall|j: nat| j > i ==> #[trigger] word_or_zero(a, j) == word_or_zero(b, j),
        word_or_zero(a, i) < word_or_zero(b, i),
    ensures
        precedes(members(a), members(b)),
{
    let j = lemma_highest_difference(word_or_zero(a, i), word_or_zero(b, i));
    let e = 64 * i + j;
    assert(e / 64 == i && e % 64 == j);
    assert forall|x: nat| x > e implies (#[trigger] members(a).contains(x) == members(
        b,
    ).contains(x)) by {
        if x / 64 > i {
            assert(word_or_zero(a, x / 64) == word_or_zero(b, x / 64));
        }
    }
    assert(decides(members(a), members(b), e));
}

/// Two word sequences that agree from word `n` on stand for the same set, or
/// for sets of which one comes before the other.
pub proof fn lemma_words_total(a: Seq<u64>, b: Seq<u64>, n: nat)
    requires
        forall|j: nat| j >= n ==> #[trigger] word_or_zero(a, j) == word_or_zero(b, j),
    ensures
        members(a) == members(b) || precedes(members(a), members(b)) || precedes(
            members(b),
            members(a),
        ),
    decreases n,
{
    if n == 0 {
        lemma_members_same(a, b);
    } else {
        let i = (n - 1) as nat;
        if word_or_zero(a, i) < word_or_zero(b, i) {
            lemma_words_decide(a, b, i);
        } else if word_or_zero(a, i) > word_or_zero(b, i) {
            lemma_words_decide(b, a, i);
        } else {
            lemma_words_total(a, b, i);
        }
    }
}

/// The non-negative numbers that occur in `elements`.
pub open spec fn elements_of(elements: Seq<i32>) -> Set<nat> {
    Set::new(|x: nat| exists|i: int| 0 <= i < elements.len() && elements[i] == x)
}

/// A set of `u32` elements.
#[derive(Debug, Hash)]
pub struct BitSet {
    chunks: WordVec,
}

impl View for BitSet {
    type V = Set<nat>;

    closed spec fn view(&self) -> Set<nat> {
        members(words_of(self.chunks))
    }
}

impl BitSet {
    /// No more words than `u32` elements need, and no zero word at the end:
    /// each set has one representation.
    #[verifier::type_invariant]
    spec fn inv(self) -> bool {
        let w = words_of(self.chunks);
        w.len() <= MAX_WORDS && (w.len() > 0 ==> w.last() != 0)
    }

    /// The words that stand for the set, which are what is hashed.
    pub closed spec fn words(&self) -> Seq<u64> {
        words_of(self.chunks)
    }

    /// Whether the set is held as every set is held: in no more words than
    /// it needs.
    pub closed spec fn is_canonical(&self) -> bool {
        self.inv()
    }

    /// A set that is held in no more words than it needs is finite and has
    /// no more elements than there are numbers for them.
    pub proof fn lemma_canonical_small(self)
        requires
            self.is_canonical(),
        ensures
            self@.finite(),
            self@.len() <= 0x1_0000_0000,
    {
        lemma_members_len(words_of(self.chunks));
        lemma_ones_upto_bound(words_of(self.chunks), words_of(self.chunks).len());
    }

    /// The elements of a set are those that its words stand for.
    pub proof fn lemma_view_is_members(self)
        ensures
            self@ == members(self.words()),
    {
    }

    /// Equal sets are held as the same words, so hash alike.
    pub proof fn lemma_equal_sets_same_words(self, other: BitSet)
        requires
            self.is_canonical(),
            other.is_canonical(),
            self@ == other@,
        ensures
            self.words() == other.words(),
    {
        lemma_members_unique(words_of(self.chunks), words_of(other.chunks));
    }

    /// Of two sets, one comes before the other or they are the same set.
    pub proof fn lemma_order_total(self, other: BitSet)
        ensures
            self@ == other@ || precedes(self@, other@) || precedes(other@, self@),
    {
        lemma_words_total(
            words_of(self.chunks),
            words_of(other.chunks),
            words_of(self.chunks).len() + words_of(other.chunks).len(),
        );
    }

    /// Every set is finite.
    pub proof fn lemma_view_finite(self)
        ensures
            self@.finite(),
    {
        lemma_members_len(words_of(self.chunks));
    }

    /// The empty set.
    pub fn new() -> (s: BitSet)
        ensures
            s@ == Set::<nat>::empty(),
            s.is_canonical(),
    {
        let chunks = words_new();
        proof {
            lemma_bits_single(0);
            assert(members(words_of(chunks)) =~= Set::<nat>::empty());
        }
        BitSet { chunks }
    }

    /// Hands out the words and leaves the empty set behind.
    fn take_words(&mut self) -> (w: WordVec)
        ensures
            w == old(self).chunks,
            words_of(final(self).chunks).len() == 0,
    {
        let mut w = words_new();
        std::mem::swap(&mut w, &mut self.chunks);
        w
    }

    /// Drops the zero words at the end.
    fn trim(words: &mut WordVec)
        ensures
            forall|i: nat|
                #[trigger] word_or_zero(words_of(*final(words)), i) == word_or_zero(
                    words_of(*old(words)),
                    i,
                ),
            words_of(*final(words)).len() <= words_of(*old(words)).len(),
            words_of(*final(words)).len() > 0 ==> words_of(*final(words)).last() != 0,
    {
        loop
            invariant
                forall|i: nat|
                    #[trigger] word_or_zero(words_of(*words), i) == word_or_zero(
                        words_of(*old(words)),
                        i,
                    ),
                words_of(*words).len() <= words_of(*old(words)).len(),
            ensures
                words_of(*words).len() > 0 ==> words_of(*words).last() != 0,
            decreases words_of(*words).len(),
        {
            match words_last(words) {
                Some(w) => {
                    if w != 0 {
                        break ;
                    }
                },
                None => {
                    break ;
                },
            }
            let ghost prev = words_of(*words);
            words_pop(words);
            proof {
                assert forall|i: nat| #[trigger]
                    word_or_zero(words_of(*words), i) == word_or_zero(prev, i) by {
                    if i < prev.len() - 1 {
                        assert(words_of(*words)[i as int] == prev[i as int]);
                    }
                }
            }
        }
    }

    /// A set with one element.
    pub fn singleton(element: u32) -> (s: BitSet)
        ensures
            s@ == Set::<nat>::empty().insert(element as nat),
            s.is_canonical(),
    {
        let mut bitset = BitSet::new();
        bitset.insert(element);
        bitset
    }

    /// The set of the numbers in `elements`, none of which may be negative.
    pub fn bitset_from_iter(elements: &[i32]) -> (s: BitSet)
        requires
            forall|i: int| 0 <= i < elements@.len() ==> elements@[i] >= 0,
        ensures
            s@ == elements_of(elements@),
            s.is_canonical(),
    {
        let mut bitset = BitSet::new();
        let mut i: usize = 0;
        while i < elements.len()
            invariant
                i <= elements@.len(),
                forall|j: int| 0 <= j < elements@.len() ==> elements@[j] >= 0,
                bitset@ == elements_of(elements@.take(i as int)),
                bitset.is_canonical(),
            decreases elements@.len() - i,
        {
            let element = elements[i];
            bitset.insert(element as u32);
            proof {
                let before = elements@.take(i as int);
                let after = elements@.take(i + 1);
                assert(after == before.push(element));
                assert(elements_of(after) =~= elements_of(before).insert(element as nat)) by {
                    assert forall|x: nat| elements_of(after).contains(x) == elements_of(
                        before,
                    ).insert(element as nat).contains(x) by {
                        if elements_of(after).contains(x) {
                            let j = choose|j: int| 0 <= j < after.len() && after[j] == x;
                            if j < before.len() {
                                assert(before[j] == x);
                            }
                        }
                        if elements_of(before).contains(x) {
                            let j = choose|j: int| 0 <= j < before.len() && before[j] == x;
                            assert(after[j] == x);
                        }
                        if x == element as nat {
                            assert(after[i as int] == x);
                        }
                    }
                }
            }
            i += 1;
        }
        proof {
            assert(elements@.take(elements@.len() as int) == elements@);
        }
        bitset
    }

    /// Whether `element` is in the set.
    pub fn contains(&self, element: u32) -> (b: bool)
        ensures
            b == self@.contains(element as nat),
    {
        let chunk_index = (element as usize) / 64;
        if chunk_index >= words_len(&self.chunks) {
            proof {
                lemma_bits_single(0);
            }
            return false;
        }
        let bit_index = (element as usize) % 64;
        proof {
            lemma_bit_test(words_of(self.chunks)[chunk_index as int], bit_index as nat);
        }
        (words_at(&self.chunks, chunk_index) & (1u64 << bit_index)) != 0
    }

    /// The number of elements.
    pub fn len(&self) -> (n: u64)
        ensures
            self@.finite(),
            n == self@.len(),
    {
        proof {
            use_type_invariant(self);
            lemma_members_len(words_of(self.chunks));
        }
        let count = words_len(&self.chunks);
        let mut total: u64 = 0;
        let mut i: usize = 0;
        while i < count
            invariant
                i <= count,
                count == words_of(self.chunks).len(),
                count <= MAX_WORDS,
                total == ones_upto(words_of(self.chunks), i as nat),
                total <= 64 * i,
            decreases count - i,
        {
            let w = words_at(&self.chunks, i);
            proof {
                lemma_ones_below_bound(w, 64);
            }
            total = total + count_ones(w) as u64;
            i += 1;
        }
        total
    }

    /// Whether the set has no element.
    pub fn is_empty(&self) -> (b: bool)
        ensures
            b == (self@ == Set::<nat>::empty()),
    {
        proof {
            use_type_invariant(self);
            lemma_bits_single(0);
        }
        let count = words_len(&self.chunks);
        let mut i: usize = 0;
        while i < count
            invariant
                i <= count,
                count == words_of(self.chunks).len(),
                forall|j: int| 0 <= j < i ==> words_of(self.chunks)[j] == 0,
            decreases count - i,
        {
            let w = words_at(&self.chunks, i);
            if w != 0 {
                proof {
                    lemma_nonzero_has_bit(w);
                    let j = w.trailing_zeros() as nat;
                    let e = 64 * (i as nat) + j;
                    assert(e / 64 == i && e % 64 == j);
                    assert(self@.contains(e));
                }
                return false;
            }
            i += 1;
        }
        proof {
            assert(self@ =~= Set::<nat>::empty());
        }
        true
    }

    /// The elements that are in either set.
    pub fn union(&self, other: &Self) -> (r: Self)
        ensures
            r@ == self@.union(other@),
            r.is_canonical(),
    {
        proof {
            use_type_invariant(self);
            use_type_invariant(other);
        }
        let self_len = words_len(&self.chunks);
        let other_len = words_len(&other.chunks);
        let max_len = if self_len > other_len {
            self_len
        } else {
            other_len
        };
        let mut result_chunks = words_with_capacity(max_len);
        let mut i: usize = 0;
        while i < max_len
            invariant
                i <= max_len,
                max_len <= MAX_WORDS,
                words_of(result_chunks).len() == i,
                forall|j: nat|
                    j < i ==> #[trigger] words_of(result_chunks)[j as int] == word_or_zero(
                        words_of(self.chunks),
                        j,
                    ) | word_or_zero(words_of(other.chunks), j),
            decreases max_len - i,
        {
            let a = words_get(&self.chunks, i).unwrap_or(0);
            let b = words_get(&other.chunks, i).unwrap_or(0);
            words_push(&mut result_chunks, a | b);
            i += 1;
        }
        let ghost full = words_of(result_chunks);
        Self::trim(&mut result_chunks);
        proof {
            assert(0u64 | 0u64 == 0u64) by (bit_vector);
            assert forall|j: nat| #[trigger]
                word_or_zero(words_of(result_chunks), j) == word_or_zero(words_of(self.chunks), j)
                    | word_or_zero(words_of(other.chunks), j) by {
                assert(word_or_zero(words_of(result_chunks), j) == word_or_zero(full, j));
            }
            lemma_members_union(
                words_of(result_chunks),
                words_of(self.chunks),
                words_of(other.chunks),
            );
        }
        BitSet { chunks: result_chunks }
    }

    /// The elements that are in both sets.
    pub fn intersection(&self, other: &Self) -> (r: Self)
        ensures
            r@ == self@.intersect(other@),
            r.is_canonical(),
    {
        proof {
            use_type_invariant(self);
            use_type_invariant(other);
        }
        let self_len = words_len(&self.chunks);
        let other_len = words_len(&other.chunks);
        let min_len = if self_len < other_len {
            self_len
        } else {
            other_len
        };
        let mut result_chunks = words_with_capacity(min_len);
        let mut i: usize = 0;
        while i < min_len
            invariant
                i <= min_len,
                min_len <= MAX_WORDS,
                min_len <= words_of(self.chunks).len(),
                min_len <= words_of(other.chunks).len(),
                words_of(result_chunks).len() == i,
                forall|j: nat|
                    j < i ==> #[trigger] words_of(result_chunks)[j as int] == word_or_zero(
                        words_of(self.chunks),
                        j,
                    ) & word_or_zero(words_of(other.chunks), j),
            decreases min_len - i,
        {
            let w = words_at(&self.chunks, i) & words_at(&other.chunks, i);
            words_push(&mut result_chunks, w);
            i += 1;
        }
        let ghost full = words_of(result_chunks);
        Self::trim(&mut result_chunks);
        proof {
            assert forall|j: nat| #[trigger]
                word_or_zero(words_of(result_chunks), j) == word_or_zero(words_of(self.chunks), j)
                    & word_or_zero(words_of(other.chunks), j) by {
                assert(word_or_zero(words_of(result_chunks), j) == word_or_zero(full, j));
                let a = word_or_zero(words_of(self.chunks), j);
                let b = word_or_zero(words_of(other.chunks), j);
                assert(a & 0u64 == 0u64) by (bit_vector);
                assert(0u64 & b == 0u64) by (bit_vector);
            }
            lemma_members_intersect(
                words_of(result_chunks),
                words_of(self.chunks),
                words_of(other.chunks),
            );
        }
        BitSet { chunks: result_chunks }
    }

    /// The elements of this set that are not in `other`.
    pub fn difference(&self, other: &Self) -> (r: Self)
        ensures
            r@ == self@.difference(other@),
            r.is_canonical(),
    {
        proof {
            use_type_invariant(self);
            use_type_invariant(other);
        }
        let self_len = words_len(&self.chunks);
        let mut result_chunks = words_with_capacity(self_len);
        let mut i: usize = 0;
        while i < self_len
            invariant
                i <= self_len,
                self_len <= MAX_WORDS,
                self_len == words_of(self.chunks).len(),
                words_of(result_chunks).len() == i,
                forall|j: nat|
                    j < i ==> #[trigger] words_of(result_chunks)[j as int] == word_or_zero(
                        words_of(self.chunks),
                        j,
                    ) & !word_or_zero(words_of(other.chunks), j),
            decreases self_len - i,
        {
            let other_chunk = words_get(&other.chunks, i).unwrap_or(0);
            let w = words_at(&self.chunks, i) & !other_chunk;
            words_push(&mut result_chunks, w);
            i += 1;
        }
        let ghost full = words_of(result_chunks);
        Self::trim(&mut result_chunks);
        proof {
            assert forall|j: nat| #[trigger]
                word_or_zero(words_of(result_chunks), j) == word_or_zero(words_of(self.chunks), j)
                    & !word_or_zero(words_of(other.chunks), j) by {
                assert(word_or_zero(words_of(result_chunks), j) == word_or_zero(full, j));
                let b = word_or_zero(words_of(other.chunks), j);
                assert(0u64 & !b == 0u64) by (bit_vector);
            }
            lemma_members_difference(
                words_of(result_chunks),
                words_of(self.chunks),
                words_of(other.chunks),
            );
        }
        BitSet { chunks: result_chunks }
    }

    /// Whether every element of this set is in `other`.
    pub fn is_subset(&self, other: &Self) -> (b: bool)
        ensures
            b == self@.subset_of(other@),
    {
        let self_len = words_len(&self.chunks);
        let other_len = words_len(&other.chunks);
        // where this set has more words than the other, those must all be zero
        if self_len > other_len {
            let mut i: usize = other_len;
            while i < self_len
                invariant
                    other_len <= i <= self_len,
                    self_len == words_of(self.chunks).len(),
                    other_len == words_of(other.chunks).len(),
                    forall|j: int| other_len <= j < i ==> words_of(self.chunks)[j] == 0,
                decreases self_len - i,
            {
                let w = words_at(&self.chunks, i);
                if w != 0 {
                    proof {
                        lemma_members_subset(words_of(self.chunks), words_of(other.chunks));
                        assert(w & !0u64 == w) by (bit_vector);
                        assert(word_or_zero(words_of(self.chunks), i as nat) & !word_or_zero(
                            words_of(other.chunks),
                            i as nat,
                        ) != 0);
                    }
                    return false;
                }
                i += 1;
            }
        }
        // the words that both sets have
        let min_len = if self_len < other_len {
            self_len
        } else {
            other_len
        };
        let mut i: usize = 0;
        while i < min_len
            invariant
                i <= min_len,
                min_len <= words_of(self.chunks).len(),
                min_len <= words_of(other.chunks).len(),
                forall|j: int|
                    0 <= j < i ==> words_of(self.chunks)[j] & !words_of(other.chunks)[j] == 0,
            decreases min_len - i,
        {
            if (words_at(&self.chunks, i) & !words_at(&other.chunks, i)) != 0 {
                proof {
                    lemma_members_subset(words_of(self.chunks), words_of(other.chunks));
                    assert(word_or_zero(words_of(self.chunks), i as nat) & !word_or_zero(
                        words_of(other.chunks),
                        i as nat,
                    ) != 0);
                }
                return false;
            }
            i += 1;
        }
        proof {
            lemma_members_subset(words_of(self.chunks), words_of(other.chunks));
            assert forall|j: nat| #[trigger]
                word_or_zero(words_of(self.chunks), j) & !word_or_zero(words_of(other.chunks), j)
                    == 0 by {
                let b = word_or_zero(words_of(other.chunks), j);
                assert(0u64 & !b == 0u64) by (bit_vector);
                if j < self_len && j >= other_len {
                    assert(words_of(self.chunks)[j as int] == 0);
                }
                if j < min_len {
                    assert(words_of(self.chunks)[j as int] & !words_of(other.chunks)[j as int]
                        == 0);
                }
            }
        }
        true
    }

    /// Whether every element of `other` is in this set.
    pub fn is_superset(&self, other: &Self) -> (b: bool)
        ensures
            b == other@.subset_of(self@),
    {
        other.is_subset(self)
    }

    /// Adds the elements of `other` to this set.
    pub fn union_assign(&mut self, other: &Self)
        ensures
            final(self)@ == old(self)@.union(other@),
            final(self).is_canonical(),
    {
        proof {
            use_type_invariant(&*self);
            use_type_invariant(other);
        }
        let mut words = self.take_words();
        let ghost before = words_of(words);
        let other_len = words_len(&other.chunks);
        if other_len > words_len(&words) {
            words_resize(&mut words, other_len, 0);
        }
        let ghost mid = words_of(words);
        let mut i: usize = 0;
        while i < other_len
            invariant
                i <= other_len,
                other_len == words_of(other.chunks).len(),
                other_len <= words_of(words).len(),
                words_of(words).len() == mid.len(),
                forall|j: int|
                    0 <= j < i ==> #[trigger] words_of(words)[j] == mid[j] | words_of(
                        other.chunks,
                    )[j],
                forall|j: int| i <= j < mid.len() ==> #[trigger] words_of(words)[j] == mid[j],
            decreases other_len - i,
        {
            let w = words_at(&words, i) | words_at(&other.chunks, i);
            words_set(&mut words, i, w);
            i += 1;
        }
        let ghost full = words_of(words);
        Self::trim(&mut words);
        proof {
            assert(0u64 | 0u64 == 0u64) by (bit_vector);
            assert forall|j: nat| #[trigger]
                word_or_zero(words_of(words), j) == word_or_zero(before, j) | word_or_zero(
                    words_of(other.chunks),
                    j,
                ) by {
                assert(word_or_zero(words_of(words), j) == word_or_zero(full, j));
                let a = word_or_zero(before, j);
                assert(a | 0u64 == a) by (bit_vector);
                if j < mid.len() {
                    assert(mid[j as int] == word_or_zero(before, j));
                    if j < other_len {
                        assert(full[j as int] == mid[j as int] | words_of(other.chunks)[j as int]);
                    } else {
                        assert(full[j as int] == mid[j as int]);
                    }
                }
            }
            lemma_members_union(words_of(words), before, words_of(other.chunks));
        }
        self.chunks = words;
    }

    /// Keeps the elements that are also in `other`.
    pub fn intersection_assign(&mut self, other: &Self)
        ensures
            final(self)@ == old(self)@.intersect(other@),
            final(self).is_canonical(),
    {
        proof {
            use_type_invariant(&*self);
            use_type_invariant(other);
        }
        let mut words = self.take_words();
        let ghost before = words_of(words);
        let self_len = words_len(&words);
        let other_len = words_len(&other.chunks);
        let min_len = if self_len < other_len {
            self_len
        } else {
            other_len
        };
        let mut i: usize = 0;
        while i < min_len
            invariant
                i <= min_len,
                min_len <= words_of(other.chunks).len(),
                min_len <= before.len(),
                words_of(words).len() == before.len(),
                forall|j: int|
                    0 <= j < i ==> #[trigger] words_of(words)[j] == before[j] & words_of(
                        other.chunks,
                    )[j],
                forall|j: int| i <= j < before.len() ==> #[trigger] words_of(words)[j] == before[j],
            decreases min_len - i,
        {
            let w = words_at(&words, i) & words_at(&other.chunks, i);
            words_set(&mut words, i, w);
            i += 1;
        }
        // the words past the end of `other` go
        words_truncate(&mut words, min_len);
        let ghost full = words_of(words);
        Self::trim(&mut words);
        proof {
            assert forall|j: nat| #[trigger]
                word_or_zero(words_of(words), j) == word_or_zero(before, j) & word_or_zero(
                    words_of(other.chunks),
                    j,
                ) by {
                assert(word_or_zero(words_of(words), j) == word_or_zero(full, j));
                let a = word_or_zero(before, j);
                let b = word_or_zero(words_of(other.chunks), j);
                assert(a & 0u64 == 0u64) by (bit_vector);
                assert(0u64 & b == 0u64) by (bit_vector);
                if j < min_len {
                    assert(full[j as int] == before[j as int] & words_of(other.chunks)[j as int]);
                }
            }
            lemma_members_intersect(words_of(words), before, words_of(other.chunks));
        }
        self.chunks = words;
    }

    /// Takes the elements of `other` out of this set.
    pub fn difference_assign(&mut self, other: &Self)
        ensures
            final(self)@ == old(self)@.difference(other@),
            final(self).is_canonical(),
    {
        proof {
            use_type_invariant(&*self);
            use_type_invariant(other);
        }
        let mut words = self.take_words();
        let ghost before = words_of(words);
        let self_len = words_len(&words);
        let other_len = words_len(&other.chunks);
        let min_len = if self_len < other_len {
            self_len
        } else {
            other_len
        };
        let mut i: usize = 0;
        while i < min_len
            invariant
                i <= min_len,
                min_len <= words_of(other.chunks).len(),
                min_len <= before.len(),
                words_of(words).len() == before.len(),
                forall|j: int|
                    0 <= j < i ==> #[trigger] words_of(words)[j] == before[j] & !words_of(
                        other.chunks,
                    )[j],
                forall|j: int| i <= j < before.len() ==> #[trigger] words_of(words)[j] == before[j],
            decreases min_len - i,
        {
            let w = words_at(&words, i) & !words_at(&other.chunks, i);
            words_set(&mut words, i, w);
            i += 1;
        }
        let ghost full = words_of(words);
        Self::trim(&mut words);
        proof {
            assert forall|j: nat| #[trigger]
                word_or_zero(words_of(words), j) == word_or_zero(before, j) & !word_or_zero(
                    words_of(other.chunks),
                    j,
                ) by {
                assert(word_or_zero(words_of(words), j) == word_or_zero(full, j));
                let a = word_or_zero(before, j);
                let b = word_or_zero(words_of(other.chunks), j);
                assert(a & !0u64 == a) by (bit_vector);
                assert(0u64 & !b == 0u64) by (bit_vector);
                if j < before.len() {
                    if j < min_len {
                        assert(full[j as int] == before[j as int] & !words_of(
                            other.chunks,
                        )[j as int]);
                    } else {
                        assert(full[j as int] == before[j as int]);
                    }
                }
            }
            lemma_members_difference(words_of(words), before, words_of(other.chunks));
        }
        self.chunks = words;
    }

    /// How this set stands to `other` in the order of sets: the set that
    /// needs more words comes last, and of two sets that need the same
    /// number of words the words are compared from the highest down, as
    /// unsigned numbers.
    pub fn compare(&self, other: &Self) -> (r: Order)
        ensures
            r == order_of(self@, other@),
            (r == Order::Equal) == (self@ == other@),
    {
        proof {
            use_type_invariant(self);
            use_type_invariant(other);
        }
        let self_len = words_len(&self.chunks);
        let other_len = words_len(&other.chunks);
        if self_len < other_len {
            proof {
                lemma_words_decide(
                    words_of(self.chunks),
                    words_of(other.chunks),
                    (other_len - 1) as nat,
                );
                lemma_precedes_asymmetric(self@, other@);
            }
            return Order::Less;
        }
        if self_len > other_len {
            proof {
                lemma_words_decide(
                    words_of(other.chunks),
                    words_of(self.chunks),
                    (self_len - 1) as nat,
                );
                lemma_precedes_asymmetric(other@, self@);
            }
            return Order::Greater;
        }
        let mut i: usize = self_len;
        while i > 0
            invariant
                i <= self_len,
                self_len == words_of(self.chunks).len(),
                self_len == words_of(other.chunks).len(),
                forall|j: nat|
                    j >= i ==> #[trigger] word_or_zero(words_of(self.chunks), j) == word_or_zero(
                        words_of(other.chunks),
                        j,
                    ),
            decreases i,
        {
            i -= 1;
            let a = words_at(&self.chunks, i);
            let b = words_at(&other.chunks, i);
            if a < b {
                proof {
                    lemma_words_decide(words_of(self.chunks), words_of(other.chunks), i as nat);
                    lemma_precedes_asymmetric(self@, other@);
                }
                return Order::Less;
            }
            if a > b {
                proof {
                    lemma_words_decide(words_of(other.chunks), words_of(self.chunks), i as nat);
                    lemma_precedes_asymmetric(other@, self@);
                }
                return Order::Greater;
            }
        }
        proof {
            lemma_members_same(words_of(self.chunks), words_of(other.chunks));
            lemma_precedes_irreflexive(self@);
        }
        Order::Equal
    }

    /// Whether this set comes strictly before `other` in the order of sets.
    pub fn comes_before(&self, other: &Self) -> (b: bool)
        ensures
            b == precedes(self@, other@),
    {
        match self.compare(other) {
            Order::Less => true,
            _ => false,
        }
    }

    /// An iterator over the elements, smallest first.
    pub fn iter(&self) -> (it: BitSetIter<'_>)
        ensures
            it.source() == self@,
            it.remaining() == self@,
    {
        proof {
            use_type_invariant(self);
            lemma_bits_single(0);
        }
        let it = BitSetIter {
            set: self,
            chunk_index: 0,
            current_chunk: words_get(&self.chunks, 0).unwrap_or(0),
        };
        proof {
            assert(it.remaining() =~= self@);
        }
        it
    }

    /// The elements, smallest first.
    pub fn to_vec(&self) -> (v: Vec<u32>)
        ensures
            forall|i: int, j: int| 0 <= i < j < v@.len() ==> v@[i] < v@[j],
            forall|e: nat| self@.contains(e) <==> exists|i: int| 0 <= i < v@.len() && v@[i] == e,
    {
        let mut out: Vec<u32> = Vec::new();
        let mut it = self.iter();
        proof {
            lemma_members_len(words_of(self.chunks));
        }
        loop
            invariant
                it.source() == self@,
                self@.finite(),
                it.remaining().subset_of(self@),
                forall|i: int, j: int| 0 <= i < j < out@.len() ==> out@[i] < out@[j],
                forall|i: int, x: nat|
                    0 <= i < out@.len() && it.remaining().contains(x) ==> out@[i] < x,
                forall|e: nat|
                    self@.contains(e) <==> (it.remaining().contains(e) || exists|i: int|
                        0 <= i < out@.len() && out@[i] == e),
            ensures
                forall|i: int, j: int| 0 <= i < j < out@.len() ==> out@[i] < out@[j],
                forall|e: nat|
                    self@.contains(e) <==> exists|i: int| 0 <= i < out@.len() && out@[i] == e,
            decreases it.remaining().len(),
        {
            let ghost before = it.remaining();
            let ghost prev = out@;
            proof {
                vstd::set_lib::lemma_set_subset_finite(self@, before);
            }
            match it.next() {
                Some(e) => {
                    out.push(e);
                    proof {
                        assert forall|x: nat| self@.contains(x) <==> (it.remaining().contains(x)
                            || exists|i: int| 0 <= i < out@.len() && out@[i] == x) by {
                            if x == e as nat {
                                assert(out@[prev.len() as int] == x);
                            }
                            if exists|i: int| 0 <= i < prev.len() && prev[i] == x {
                                let i = choose|i: int| 0 <= i < prev.len() && prev[i] == x;
                                assert(out@[i] == x);
                            }
                        }
                    }
                },
                None => {
                    break ;
                },
            }
        }
        out
    }

    /// The elements below 128 as one wide word: bit `j` is set where `j` is
    /// in the set.
    pub fn bits(&self) -> (r: u128)
        ensures
            forall|j: nat| j < 128 ==> #[trigger] wide_bit_at(r, j) == self@.contains(j),
    {
        let count = words_len(&self.chunks);
        let low: u64 = words_get(&self.chunks, 0).unwrap_or(0);
        let high: u64 = words_get(&self.chunks, 1).unwrap_or(0);
        proof {
            lemma_wide_bits(low, high);
        }
        if count == 0 {
            0
        } else if count == 1 {
            low as u128
        } else {
            low as u128 | ((high as u128) << 64)
        }
    }

    /// Makes room for the word that holds `element`.
    fn ensure_capacity(words: &mut WordVec, element: u32)
        requires
            words_of(*old(words)).len() <= MAX_WORDS,
        ensures
            words_of(*final(words)).len() <= MAX_WORDS,
            words_of(*final(words)).len() > element / 64,
            words_of(*final(words)).len() >= words_of(*old(words)).len(),
            forall|i: nat| word_or_zero(words_of(*final(words)), i) == word_or_zero(words_of(*old(words)), i),
            words_of(*final(words)).len() > words_of(*old(words)).len() ==> words_of(*final(words)).len() == element / 64 + 1,
    {
        let chunk_index = (element as usize) / 64;
        if chunk_index >= words_len(words) {
            words_resize(words, chunk_index + 1, 0);
        }
    }

    /// Adds `element` to the set.
    pub fn insert(&mut self, element: u32)
        ensures
            final(self)@ == old(self)@.insert(element as nat),
            final(self).is_canonical(),
    {
        proof {
            use_type_invariant(&*self);
        }
        let mut words = self.take_words();
        let ghost before = words_of(words);
        Self::ensure_capacity(&mut words, element);
        let ghost mid = words_of(words);
        let chunk_index = (element as usize) / 64;
        let bit_index = (element as usize) % 64;
        let w = words_at(&words, chunk_index);
        words_set(&mut words, chunk_index, w | (1u64 << bit_index));
        proof {
            let after = words_of(words);
            lemma_bits_binary(w, 1u64 << (bit_index as u64));
            lemma_bits_single(bit_index as nat);
            assert(w == word_or_zero(before, chunk_index as nat));
            assert forall|x: nat| members(after).contains(x) == members(before).insert(element as nat).contains(x) by {
                if x / 64 == chunk_index {
                    assert(word_or_zero(after, x / 64) == w | (1u64 << (bit_index as u64)));
                } else {
                    assert(word_or_zero(after, x / 64) == word_or_zero(before, x / 64));
                }
            }
            assert(members(after) =~= members(before).insert(element as nat));
            assert(bit_at(after[chunk_index as int], bit_index as nat));
            assert(after[chunk_index as int] != 0);
            if chunk_index != after.len() - 1 {
                let last = (after.len() - 1) as nat;
                assert(word_or_zero(mid, last) == word_or_zero(before, last));
            }
        }
        self.chunks = words;
    }
}

/// An iterator over the elements of a set, smallest first.
pub struct BitSetIter<'a> {
    set: &'a BitSet,
    chunk_index: usize,
    current_chunk: u64,
}

impl<'a> BitSetIter<'a> {
    /// The word in hand holds only bits of the set's word at `chunk_index`,
    /// and none once the words are used up.
    #[verifier::type_invariant]
    spec fn inv(self) -> bool {
        let words = words_of(self.set.chunks);
        &&& self.set.inv()
        &&& self.chunk_index <= words.len()
        &&& forall|j: nat|
            j < 64 && #[trigger] bit_at(self.current_chunk, j) ==> bit_at(
                word_or_zero(words, self.chunk_index as nat),
                j,
            )
    }

    /// The set that is iterated.
    pub closed spec fn source(&self) -> Set<nat> {
        self.set@
    }

    /// The elements that are still to come.
    pub closed spec fn remaining(&self) -> Set<nat> {
        Set::new(
            |e: nat|
                (e / 64 == self.chunk_index && bit_at(self.current_chunk, e % 64)) || (e / 64
                    > self.chunk_index && self.set@.contains(e)),
        )
    }

    /// The smallest element that is still to come, which then is no longer
    /// to come; `None` where none is left.
    pub fn next(&mut self) -> (r: Option<u32>)
        ensures
            final(self).source() == old(self).source(),
            final(self).remaining().subset_of(final(self).source()),
            match r {
                Some(e) => {
                    &&& old(self).remaining().contains(e as nat)
                    &&& forall|x: nat| old(self).remaining().contains(x) ==> e <= x
                    &&& final(self).remaining() == old(self).remaining().remove(e as nat)
                },
                None => {
                    &&& old(self).remaining() == Set::<nat>::empty()
                    &&& final(self).remaining() == Set::<nat>::empty()
                },
            },
    {
        let count = words_len(&self.set.chunks);
        loop
            invariant
                count == words_of(self.set.chunks).len(),
                self.set == old(self).set,
                self.remaining() == old(self).remaining(),
            decreases count - self.chunk_index, self.current_chunk,
        {
            proof {
                use_type_invariant(&*self);
                lemma_bits_single(0);
            }
            if self.current_chunk != 0 {
                let bit_index = self.current_chunk.trailing_zeros();
                let ghost before = self.current_chunk;
                proof {
                    lemma_nonzero_has_bit(before);
                    lemma_bits_binary(before, 1u64 << (bit_index as u64));
                    lemma_bits_single(bit_index as nat);
                }
                self.current_chunk &= !(1u64 << bit_index);
                let e: u32 = (self.chunk_index * 64) as u32 + bit_index;
                proof {
                    let ci = self.chunk_index as nat;
                    assert(e as nat / 64 == ci && e as nat % 64 == bit_index as nat);
                    assert forall|x: nat| old(self).remaining().contains(x) implies e <= x by {
                        if x / 64 == ci {
                            assert(bit_at(before, x % 64));
                        }
                    }
                    assert(self.remaining() =~= old(self).remaining().remove(e as nat));
                    assert(self.remaining().subset_of(self.source()));
                }
                return Some(e);
            }
            if self.chunk_index >= count {
                proof {
                    assert(self.remaining() =~= Set::<nat>::empty());
                }
                return None;
            }
            let ghost before = self.remaining();
            self.chunk_index += 1;
            if self.chunk_index >= count {
                proof {
                    assert(self.remaining() =~= Set::<nat>::empty());
                    assert(before =~= Set::<nat>::empty());
                }
                return None;
            }
            self.current_chunk = words_at(&self.set.chunks, self.chunk_index);
            proof {
                assert(self.remaining() =~= before);
            }
        }
    }
}

impl Clone for BitSet {
    fn clone(&self) -> (r: Self)
        ensures
            r@ == self@,
            r.is_canonical(),
    {
        proof {
            use_type_invariant(self);
        }
        BitSet { chunks: words_clone(&self.chunks) }
    }
}

impl Default for BitSet {
    fn default() -> (s: Self)
        ensures
            s@ == Set::<nat>::empty(),
            s.is_canonical(),
    {
        Self::new()
    }
}

impl PartialEq for BitSet {
    fn eq(&self, other: &Self) -> (r: bool) {
        proof {
            use_type_invariant(self);
            use_type_invariant(other);
            if self@ == other@ {
                lemma_members_unique(words_of(self.chunks), words_of(other.chunks));
            }
        }
        words_eq(&self.chunks, &other.chunks)
    }
}

impl PartialEqSpecImpl for BitSet {
    open spec fn obeys_eq_spec() -> bool {
        true
    }

    open spec fn eq_spec(&self, other: &Self) -> bool {
        self@ == other@
    }
}

impl Eq for BitSet {

}

impl PartialOrd for BitSet {
    fn partial_cmp(&self, other: &Self) -> (r: Option<Ordering>) {
        match self.compare(other) {
            Order::Less => Some(Ordering::Less),
            Order::Equal => Some(Ordering::Equal),
            Order::Greater => Some(Ordering::Greater),
        }
    }
}

impl PartialOrdSpecImpl for BitSet {
    open spec fn obeys_partial_cmp_spec() -> bool {
        true
    }

    open spec fn partial_cmp_spec(&self, other: &Self) -> Option<Ordering> {
        match order_of(self@, other@) {
            Order::Less => Some(Ordering::Less),
            Order::Equal => Some(Ordering::Equal),
            Order::Greater => Some(Ordering::Greater),
        }
    }
}

} // verus!
