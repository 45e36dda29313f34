//! Single bits of a 64-bit word, and what the word operations do to them.

use vstd::prelude::*;

verus! {

/// Whether bit `j` of `w` is set, for `j` below 64.
pub open spec fn bit_at(w: u64, j: nat) -> bool {
    (w >> (j as u64)) & 1 == 1
}

/// How many of the `k` lowest bits of `w` are set.
pub open spec fn ones_below(w: u64, k: nat) -> nat
    decreases k,
{
    if k == 0 {
        0
    } else {
        ones_below(w, (k - 1) as nat) + if bit_at(w, (k - 1) as nat) {
            1nat
        } else {
            0nat
        }
    }
}

/// No more than `k` of the `k` lowest bits are set.
pub proof fn lemma_ones_below_bound(w: u64, k: nat)
    ensures
        ones_below(w, k) <= k,
    decreases k,
{
    if k > 0 {
        lemma_ones_below_bound(w, (k - 1) as nat);
    }
}

/// `u64::count_ones`: the number of bits of `w` that are set.
#[verifier::external_body]
pub(crate) fn count_ones(w: u64) -> (n: u32)
    ensures
        n == ones_below(w, 64),
{
    w.count_ones()
}

proof fn bv_binary(a: u64, b: u64, j: u64)
    by (bit_vector)
    requires
        j < 64,
    ensures
        (((a | b) >> j) & 1 == 1) == (((a >> j) & 1 == 1) || ((b >> j) & 1 == 1)),
        (((a & b) >> j) & 1 == 1) == (((a >> j) & 1 == 1) && ((b >> j) & 1 == 1)),
        (((a & !b) >> j) & 1 == 1) == (((a >> j) & 1 == 1) && !((b >> j) & 1 == 1)),
        (((a ^ b) >> j) & 1 == 1) == (((a >> j) & 1 == 1) != ((b >> j) & 1 == 1)),
{
}

proof fn bv_single(k: u64, j: u64)
    by (bit_vector)
    requires
        j < 64,
        k < 64,
    ensures
        (((1u64 << k) >> j) & 1 == 1) == (j == k),
        ((0u64 >> j) & 1 == 1) == false,
{
}

proof fn bv_test(w: u64, k: u64)
    by (bit_vector)
    requires
        k < 64,
    ensures
        ((w & (1u64 << k)) != 0) == ((w >> k) & 1 == 1),
{
}

/// Bitwise or, and, and-not and xor act on each bit by itself.
pub proof fn lemma_bits_binary(a: u64, b: u64)
    ensures
        forall|j: nat| j < 64 ==> #[trigger] bit_at(a | b, j) == (bit_at(a, j) || bit_at(b, j)),
        forall|j: nat| j < 64 ==> #[trigger] bit_at(a & b, j) == (bit_at(a, j) && bit_at(b, j)),
        forall|j: nat| j < 64 ==> #[trigger] bit_at(a & !b, j) == (bit_at(a, j) && !bit_at(b, j)),
        forall|j: nat| j < 64 ==> #[trigger] bit_at(a ^ b, j) == (bit_at(a, j) != bit_at(b, j)),
{
    assert forall|j: nat| j < 64 implies #[trigger] bit_at(a | b, j) == (bit_at(a, j) || bit_at(
        b,
        j,
    )) by {
        bv_binary(a, b, j as u64);
    }
    assert forall|j: nat| j < 64 implies #[trigger] bit_at(a & b, j) == (bit_at(a, j) && bit_at(
        b,
        j,
    )) by {
        bv_binary(a, b, j as u64);
    }
    assert forall|j: nat| j < 64 implies #[trigger] bit_at(a & !b, j) == (bit_at(a, j) && !bit_at(
        b,
        j,
    )) by {
        bv_binary(a, b, j as u64);
    }
    assert forall|j: nat| j < 64 implies #[trigger] bit_at(a ^ b, j) == (bit_at(a, j) != bit_at(
        b,
        j,
    )) by {
        bv_binary(a, b, j as u64);
    }
}

/// The word `1 << k` has bit `k` set and no other; the word 0 has no bit set.
pub proof fn lemma_bits_single(k: nat)
    requires
        k < 64,
    ensures
        forall|j: nat| j < 64 ==> #[trigger] bit_at(1u64 << (k as u64), j) == (j == k),
        forall|j: nat| j < 64 ==> !#[trigger] bit_at(0u64, j),
{
    assert forall|j: nat| j < 64 implies #[trigger] bit_at(1u64 << (k as u64), j) == (j == k) by {
        bv_single(k as u64, j as u64);
    }
    assert forall|j: nat| j < 64 implies !#[trigger] bit_at(0u64, j) by {
        bv_single(k as u64, j as u64);
    }
}

/// Masking with `1 << k` tests bit `k`.
pub proof fn lemma_bit_test(w: u64, k: nat)
    requires
        k < 64,
    ensures
        ((w & (1u64 << (k as u64))) != 0) == bit_at(w, k),
{
    bv_test(w, k as u64);
}

/// A word other than 0 has a set bit: the one its trailing zeros end at.
pub proof fn lemma_nonzero_has_bit(w: u64)
    requires
        w != 0,
    ensures
        w.trailing_zeros() < 64,
        bit_at(w, w.trailing_zeros() as nat),
        forall|j: nat| j < w.trailing_zeros() ==> !#[trigger] bit_at(w, j),
{
    vstd::std_specs::bits::axiom_u64_trailing_zeros(w);
    assert forall|j: nat| j < w.trailing_zeros() implies !#[trigger] bit_at(w, j) by {
        assert((w >> (j as u64)) & 1u64 == 0u64);
    }
}

/// Two words with the same bits are the same word.
pub proof fn lemma_same_bits(a: u64, b: u64)
    requires
        forall|j: nat| j < 64 ==> bit_at(a, j) == bit_at(b, j),
    ensures
        a == b,
{
    let x = a ^ b;
    if x != 0 {
        lemma_nonzero_has_bit(x);
        lemma_bits_binary(a, b);
        let j = x.trailing_zeros() as nat;
        assert(bit_at(a ^ b, j));
        assert(bit_at(a, j) == bit_at(b, j));
    }
    assert(x == 0 ==> a == b) by (bit_vector)
        requires
            x == a ^ b,
    ;
}

/// Whether bit `j` of the wide word `w` is set, for `j` below 128.
pub open spec fn wide_bit_at(w: u128, j: nat) -> bool {
    (w >> (j as u128)) & 1 == 1
}

proof fn bv_wide(low: u64, high: u64, j: u64, k: u128)
    by (bit_vector)
    requires
        j < 64,
        k == j + 64,
    ensures
        ((((low as u128) | ((high as u128) << 64u128)) >> (j as u128)) & 1u128 == 1u128) == ((low
            >> j) & 1u64 == 1u64),
        ((((low as u128) | ((high as u128) << 64u128)) >> k) & 1u128 == 1u128) == ((high >> j)
            & 1u64 == 1u64),
        (low as u128) == (low as u128) | ((0u64 as u128) << 64u128),
{
}

/// The wide word made of `low` and, 64 bits up, `high` has the bits of both.
pub proof fn lemma_wide_bits(low: u64, high: u64)
    ensures
        forall|j: nat|
            j < 64 ==> #[trigger] wide_bit_at((low as u128) | ((high as u128) << 64u128), j)
                == bit_at(low, j),
        forall|j: nat|
            64 <= j < 128 ==> #[trigger] wide_bit_at(
                (low as u128) | ((high as u128) << 64u128),
                j,
            ) == bit_at(high, (j - 64) as nat),
        (low as u128) == (low as u128) | ((0u64 as u128) << 64u128),
{
    let w = (low as u128) | ((high as u128) << 64u128);
    assert forall|j: nat| j < 64 implies #[trigger] wide_bit_at(w, j) == bit_at(low, j) by {
        bv_wide(low, high, j as u64, (j + 64) as u128);
    }
    assert forall|j: nat| 64 <= j < 128 implies #[trigger] wide_bit_at(w, j) == bit_at(
        high,
        (j - 64) as nat,
    ) by {
        bv_wide(low, high, (j - 64) as u64, j as u128);
    }
    bv_wide(low, high, 0, 64);
}

proof fn bv_decide(a: u64, b: u64, j: u64, s: u64)
    by (bit_vector)
    requires
        j < 64,
        s == j + 1,
        (a ^ b) >> s == 0,
        ((a ^ b) >> j) & 1 != 0,
        a < b,
    ensures
        (b >> j) & 1 == 1,
        (a >> j) & 1 == 0,
{
}

/// Of two words, the smaller one lacks the highest bit in which they differ.
pub proof fn lemma_highest_difference(a: u64, b: u64) -> (j: nat)
    requires
        a < b,
    ensures
        j < 64,
        bit_at(b, j),
        !bit_at(a, j),
        forall|i: nat| j < i < 64 ==> bit_at(a, i) == bit_at(b, i),
{
    let x = a ^ b;
    assert(x != 0) by (bit_vector)
        requires
            x == a ^ b,
            a < b,
    ;
    vstd::std_specs::bits::axiom_u64_leading_zeros(x);
    let lz = vstd::std_specs::bits::u64_leading_zeros(x);
    let j = (63 - lz) as nat;
    bv_decide(a, b, j as u64, (64 - lz) as u64);
    lemma_bits_binary(a, b);
    assert forall|i: nat| j < i < 64 implies bit_at(a, i) == bit_at(b, i) by {
        assert((x >> (i as u64)) & 1u64 == 0u64);
        assert(!bit_at(a ^ b, i));
    }
    j
}

} // verus!
