//! The recipes in a fixed order, and what is counted over them once before the
//! search: for each ingredient the number of recipes that use it, for each
//! recipe its least such number and its amortized cost.

use crate::bitset::BitSet;
use crate::order::{lemma_precedes_transitive, precedes, Order};
use crate::store::{count_at, counts_get, counts_insert, counts_new};
use rustc_hash::FxHashMap;
use vstd::prelude::*;

verus! {

/// The ingredient sets of a sequence of recipes.
pub open spec fn views(recipes: Seq<BitSet>) -> Seq<Set<nat>> {
    Seq::new(recipes.len(), |i: int| recipes[i]@)
}

/// The ingredient sets of a sequence of recipes that are held elsewhere.
pub open spec fn views_of(recipes: Seq<&BitSet>) -> Seq<Set<nat>> {
    Seq::new(recipes.len(), |i: int| recipes[i]@)
}

/// The ingredients of a sequence of recipes taken together.
pub open spec fn union_of(recipes: Seq<Set<nat>>) -> Set<nat>
    decreases recipes.len(),
{
    if recipes.len() == 0 {
        Set::empty()
    } else {
        union_of(recipes.drop_last()).union(recipes.last())
    }
}

/// Each recipe comes strictly before the ones after it in the order of sets,
/// so no recipe occurs twice.
pub open spec fn strictly_sorted(table: Seq<Set<nat>>) -> bool {
    forall|i: int, j: int| 0 <= i < j < table.len() ==> precedes(#[trigger] table[i], #[trigger] table[j])
}

/// Whether each recipe of the table is a finite set of no more elements than
/// there are numbers for them.
pub open spec fn small_recipes(table: Seq<Set<nat>>) -> bool {
    forall|id: int|
        0 <= id < table.len() ==> (#[trigger] table[id]).finite() && table[id].len()
            <= ELEMENT_BOUND
}

/// Whether `r` is one of the recipes of `table`.
pub open spec fn holds(table: Seq<Set<nat>>, r: Set<nat>) -> bool {
    exists|i: int| 0 <= i < table.len() && #[trigger] table[i] == r
}

/// One whole ingredient, as amortized costs count it: costs are held as
/// multiples of `1 / COST_SCALE`.
pub const COST_SCALE: u128 = 0x1_0000_0000_0000_0000;

/// The bound below which every element of a set lies.
pub const ELEMENT_BOUND: u64 = 0x1_0000_0000;

/// The number of recipes among the first `n` of `table` that use ingredient `e`.
pub open spec fn card_upto(table: Seq<Set<nat>>, n: nat, e: nat) -> nat
    decreases n,
{
    if n == 0 {
        0
    } else {
        card_upto(table, (n - 1) as nat, e) + if table[n - 1].contains(e) {
            1nat
        } else {
            0nat
        }
    }
}

/// The number of recipes of `table` that use ingredient `e`.
pub open spec fn card(table: Seq<Set<nat>>, e: nat) -> nat {
    card_upto(table, table.len(), e)
}

/// The cost of one ingredient that `c` recipes share, in units of
/// `1 / COST_SCALE`, rounded down; 0 where `c` is 0.
pub open spec fn share(c: nat) -> nat {
    if c == 0 {
        0
    } else {
        COST_SCALE as nat / c
    }
}

/// The least `card` among the ingredients of `r` below `bound`;
/// `usize::MAX` where `r` has no ingredient below `bound`.
pub open spec fn min_below(table: Seq<Set<nat>>, r: Set<nat>, bound: nat) -> nat
    decreases bound,
{
    if bound == 0 {
        usize::MAX as nat
    } else {
        let rest = min_below(table, r, (bound - 1) as nat);
        let e = (bound - 1) as nat;
        if r.contains(e) && card(table, e) < rest {
            card(table, e)
        } else {
            rest
        }
    }
}

/// The sum of `share(card)` over the ingredients of `r` below `bound`.
pub open spec fn cost_below(table: Seq<Set<nat>>, r: Set<nat>, bound: nat) -> nat
    decreases bound,
{
    if bound == 0 {
        0
    } else {
        let e = (bound - 1) as nat;
        cost_below(table, r, e) + if r.contains(e) {
            share(card(table, e))
        } else {
            0
        }
    }
}

/// The least number of recipes that any one ingredient of `r` is used by: 1
/// where `r` has an ingredient that no other recipe uses.
pub open spec fn min_cover_of(table: Seq<Set<nat>>, r: Set<nat>) -> nat {
    min_below(table, r, ELEMENT_BOUND as nat)
}

/// The amortized cost of `r`: each of its ingredients costs one whole, split
/// evenly among the recipes that use it.
pub open spec fn cost_of(table: Seq<Set<nat>>, r: Set<nat>) -> nat {
    cost_below(table, r, ELEMENT_BOUND as nat)
}

/// No more than `n` of the first `n` recipes use an ingredient.
pub proof fn lemma_card_bound(table: Seq<Set<nat>>, n: nat, e: nat)
    ensures
        card_upto(table, n, e) <= n,
    decreases n,
{
    if n > 0 {
        lemma_card_bound(table, (n - 1) as nat, e);
    }
}

/// An ingredient of one of the first `n` recipes is used by at least one of them.
pub proof fn lemma_card_positive(table: Seq<Set<nat>>, n: nat, e: nat, id: int)
    requires
        0 <= id < n,
        table[id].contains(e),
    ensures
        card_upto(table, n, e) >= 1,
    decreases n,
{
    if id < n - 1 {
        lemma_card_positive(table, (n - 1) as nat, e, id);
    }
}

/// Where `r` has no ingredient from `a` up to `b`, the least `card` and the
/// cost below `b` are those below `a`.
pub proof fn lemma_below_skip(table: Seq<Set<nat>>, r: Set<nat>, a: nat, b: nat)
    requires
        a <= b,
        forall|x: nat| a <= x < b ==> !r.contains(x),
    ensures
        min_below(table, r, b) == min_below(table, r, a),
        cost_below(table, r, b) == cost_below(table, r, a),
    decreases b,
{
    if a < b {
        lemma_below_skip(table, r, a, (b - 1) as nat);
    }
}

/// The cost below `bound` is no more than `bound` whole ingredients.
pub proof fn lemma_cost_bound(table: Seq<Set<nat>>, r: Set<nat>, bound: nat)
    ensures
        cost_below(table, r, bound) <= bound * COST_SCALE,
    decreases bound,
{
    if bound > 0 {
        lemma_cost_bound(table, r, (bound - 1) as nat);
        let c = card(table, (bound - 1) as nat);
        if c > 0 {
            assert(COST_SCALE as nat / c <= COST_SCALE) by (nonlinear_arith)
                requires
                    c > 0,
            ;
        }
    }
}

/// Counts, for each ingredient, the recipes of `table` that use it.
pub fn count_ingredients(table: &Vec<BitSet>) -> (counts: FxHashMap<u32, usize>)
    ensures
        forall|e: u32| count_at(counts@, e) == card(views(table@), e as nat),
        forall|e: u32| counts@.contains_key(e) <==> card(views(table@), e as nat) > 0,
{
    let ghost tv = views(table@);
    let mut cardinality = counts_new();
    let mut id: usize = 0;
    while id < table.len()
        invariant
            id <= table.len(),
            tv == views(table@),
            forall|e: u32| count_at(cardinality@, e) == card_upto(tv, id as nat, e as nat),
            forall|e: u32| cardinality@.contains_key(e) ==> cardinality@[e] > 0,
        decreases table.len() - id,
    {
        let mut it = table[id].iter();
        let ghost r = tv[id as int];
        let ghost pos: nat = 0;
        proof {
            table[id as int].lemma_view_finite();
        }
        loop
            invariant
                id < table.len(),
                tv == views(table@),
                r == tv[id as int],
                it.source() == r,
                r.finite(),
                it.remaining().subset_of(r),
                forall|x: nat| it.remaining().contains(x) <==> r.contains(x) && x >= pos,
                forall|e: u32| cardinality@.contains_key(e) ==> cardinality@[e] > 0,
                forall|e: u32|
                    count_at(cardinality@, e) == card_upto(tv, id as nat, e as nat) + if r.contains(
                        e as nat,
                    ) && e < pos {
                        1nat
                    } else {
                        0nat
                    },
            ensures
                forall|e: u32| count_at(cardinality@, e) == card_upto(tv, (id + 1) as nat, e as nat),
                forall|e: u32| cardinality@.contains_key(e) ==> cardinality@[e] > 0,
            decreases it.remaining().len(),
        {
            proof {
                vstd::set_lib::lemma_set_subset_finite(r, it.remaining());
            }
            match it.next() {
                Some(ingredient) => {
                    proof {
                        lemma_card_bound(tv, id as nat, ingredient as nat);
                    }
                    let ghost before = cardinality@;
                    let ghost was = pos;
                    let count = counts_get(&cardinality, ingredient).unwrap_or(0);
                    proof {
                        assert(count == count_at(before, ingredient));
                    }
                    counts_insert(&mut cardinality, ingredient, count + 1);
                    proof {
                        pos = (ingredient + 1) as nat;
                        assert forall|e: u32|
                            count_at(cardinality@, e) == card_upto(tv, id as nat, e as nat)
                                + if r.contains(e as nat) && e < pos {
                                1nat
                            } else {
                                0nat
                            } by {
                            assert(count_at(before, e) == card_upto(tv, id as nat, e as nat)
                                + if r.contains(e as nat) && e < was {
                                1nat
                            } else {
                                0nat
                            });
                            if e != ingredient {
                                assert(count_at(cardinality@, e) == count_at(before, e));
                                if r.contains(e as nat) && e < pos {
                                    assert(e as nat >= was || e < was);
                                }
                            }
                        }
                    }
                },
                None => {
                    break ;
                },
            }
        }
        id += 1;
    }
    proof {
        assert forall|e: u32| cardinality@.contains_key(e) <==> card(tv, e as nat) > 0 by {
            assert(count_at(cardinality@, e) == card(tv, e as nat));
        }
    }
    cardinality
}

/// Computes, for each recipe of `table`, its least ingredient count and its
/// amortized cost.
pub fn build_tables(table: &Vec<BitSet>, counts: &FxHashMap<u32, usize>) -> (r: (
    Vec<usize>,
    Vec<u128>,
))
    requires
        forall|e: u32| count_at(counts@, e) == card(views(table@), e as nat),
    ensures
        r.0@.len() == table@.len(),
        r.1@.len() == table@.len(),
        forall|id: int|
            0 <= id < table@.len() ==> #[trigger] r.0@[id] == min_cover_of(
                views(table@),
                table@[id]@,
            ),
        forall|id: int|
            0 <= id < table@.len() ==> #[trigger] r.1@[id] == cost_of(views(table@), table@[id]@),
{
    let ghost tv = views(table@);
    let mut min_cover: Vec<usize> = Vec::new();
    let mut min_amortized_cost: Vec<u128> = Vec::new();
    let mut id: usize = 0;
    while id < table.len()
        invariant
            id <= table.len(),
            tv == views(table@),
            min_cover@.len() == id,
            min_amortized_cost@.len() == id,
            forall|e: u32| count_at(counts@, e) == card(tv, e as nat),
            forall|j: int| 0 <= j < id ==> #[trigger] min_cover@[j] == min_cover_of(tv, tv[j]),
            forall|j: int| 0 <= j < id ==> #[trigger] min_amortized_cost@[j] == cost_of(tv, tv[j]),
        decreases table.len() - id,
    {
        let mut it = table[id].iter();
        let ghost r = tv[id as int];
        let ghost pos: nat = 0;
        let mut least: usize = usize::MAX;
        let mut cost: u128 = 0;
        proof {
            table[id as int].lemma_view_finite();
        }
        loop
            invariant
                id < table.len(),
                tv == views(table@),
                r == tv[id as int],
                it.source() == r,
                r.finite(),
                it.remaining().subset_of(r),
                forall|e: u32| count_at(counts@, e) == card(tv, e as nat),
                forall|x: nat| it.remaining().contains(x) <==> r.contains(x) && x >= pos,
                pos <= ELEMENT_BOUND,
                least == min_below(tv, r, pos),
                cost == cost_below(tv, r, pos),
            ensures
                least == min_cover_of(tv, r),
                cost == cost_of(tv, r),
            decreases it.remaining().len(),
        {
            proof {
                vstd::set_lib::lemma_set_subset_finite(r, it.remaining());
            }
            match it.next() {
                Some(ingredient) => {
                    let count = counts_get(counts, ingredient).unwrap_or(0);
                    proof {
                        assert(count == count_at(counts@, ingredient));
                        assert(r.contains(ingredient as nat));
                        lemma_below_skip(tv, r, pos, ingredient as nat);
                        lemma_cost_bound(tv, r, ingredient as nat);
                        lemma_card_positive(tv, tv.len(), ingredient as nat, id as int);
                        assert(count_at(counts@, ingredient) == card(tv, ingredient as nat));
                        assert(count > 0);
                        assert(COST_SCALE as nat / (count as nat) <= COST_SCALE)
                            by (nonlinear_arith)
                            requires
                                count > 0,
                        ;
                        assert(ingredient as nat * COST_SCALE <= 0xffff_ffff * COST_SCALE)
                            by (nonlinear_arith)
                            requires
                                ingredient <= 0xffff_ffff,
                        ;
                    }
                    cost = cost + COST_SCALE / (count as u128);
                    if count < least {
                        least = count;
                    }
                    proof {
                        pos = (ingredient + 1) as nat;
                    }
                },
                None => {
                    proof {
                        lemma_below_skip(tv, r, pos, ELEMENT_BOUND as nat);
                    }
                    break ;
                },
            }
        }
        min_cover.push(least);
        min_amortized_cost.push(cost);
        id += 1;
    }
    (min_cover, min_amortized_cost)
}

/// The recipes of `raw` in the order of sets, each once.
pub fn sort_recipes(raw: &[&BitSet]) -> (table: Vec<BitSet>)
    ensures
        strictly_sorted(views(table@)),
        small_recipes(views(table@)),
        forall|r: Set<nat>| holds(views(table@), r) <==> holds(views_of(raw@), r),
{
    let mut table: Vec<BitSet> = Vec::new();
    let mut done: usize = 0;
    while done < raw.len()
        invariant
            done <= raw.len(),
            strictly_sorted(views(table@)),
            forall|i: int| 0 <= i < table@.len() ==> (#[trigger] table@[i]).is_canonical(),
            forall|r: Set<nat>|
                holds(views(table@), r) <==> holds(views_of(raw@.take(done as int)), r),
        decreases raw.len() - done,
    {
        let item = raw[done].clone();
        let ghost tv = views(table@);
        // binary search for the place of `item`
        let mut lo: usize = 0;
        let mut hi: usize = table.len();
        let mut found = false;
        while lo < hi && !found
            invariant
                lo <= hi <= table.len(),
                tv == views(table@),
                strictly_sorted(tv),
                forall|i: int| 0 <= i < lo ==> precedes(#[trigger] tv[i], item@),
                forall|i: int| hi <= i < tv.len() ==> precedes(item@, #[trigger] tv[i]),
                found ==> holds(tv, item@),
            decreases hi - lo + if found { 0int } else { 1int },
        {
            let mid = lo + (hi - lo) / 2;
            match table[mid].compare(&item) {
                Order::Less => {
                    proof {
                        assert forall|i: int| 0 <= i < mid + 1 implies precedes(
                            #[trigger] tv[i],
                            item@,
                        ) by {
                            if i < mid {
                                lemma_precedes_transitive(tv[i], tv[mid as int], item@);
                            }
                        }
                    }
                    lo = mid + 1;
                },
                Order::Greater => {
                    proof {
                        assert forall|i: int| mid <= i < tv.len() implies precedes(
                            item@,
                            #[trigger] tv[i],
                        ) by {
                            if i > mid {
                                lemma_precedes_transitive(item@, tv[mid as int], tv[i]);
                            }
                        }
                    }
                    hi = mid;
                },
                Order::Equal => {
                    proof {
                        assert(tv[mid as int] == item@);
                    }
                    found = true;
                },
            }
        }
        let ghost before = raw@.take(done as int);
        let ghost after = raw@.take(done + 1);
        proof {
            assert(after =~= before.push(raw@[done as int]));
            assert forall|r: Set<nat>| holds(views_of(after), r) <==> (holds(views_of(before), r)
                || r == item@) by {
                if holds(views_of(after), r) {
                    let i = choose|i: int|
                        0 <= i < views_of(after).len() && #[trigger] views_of(after)[i] == r;
                    if i < before.len() {
                        assert(views_of(before)[i] == r);
                    }
                }
                if holds(views_of(before), r) {
                    let i = choose|i: int|
                        0 <= i < views_of(before).len() && #[trigger] views_of(before)[i] == r;
                    assert(views_of(after)[i] == r);
                }
                if r == item@ {
                    assert(views_of(after)[done as int] == r);
                }
            }
        }
        if !found {
            table.insert(lo, item);
            proof {
                let nv = views(table@);
                assert forall|i: int, j: int| 0 <= i < j < nv.len() implies precedes(
                    #[trigger] nv[i],
                    #[trigger] nv[j],
                ) by {
                    let oi = if i < lo { i } else { i - 1 };
                    let oj = if j < lo { j } else { j - 1 };
                    if i != lo {
                        assert(nv[i] == tv[oi]);
                    }
                    if j != lo {
                        assert(nv[j] == tv[oj]);
                    }
                }
                assert forall|r: Set<nat>| holds(nv, r) <==> (holds(tv, r) || r == item@) by {
                    if holds(nv, r) {
                        let i = choose|i: int| 0 <= i < nv.len() && #[trigger] nv[i] == r;
                        if i < lo {
                            assert(tv[i] == r);
                        } else if i > lo {
                            assert(tv[i - 1] == r);
                        }
                    }
                    if holds(tv, r) {
                        let i = choose|i: int| 0 <= i < tv.len() && #[trigger] tv[i] == r;
                        if i < lo {
                            assert(nv[i] == r);
                        } else {
                            assert(nv[i + 1] == r);
                        }
                    }
                    if r == item@ {
                        assert(nv[lo as int] == r);
                    }
                }
            }
        }
        done += 1;
    }
    proof {
        assert(raw@.take(raw@.len() as int) =~= raw@);
        assert forall|id: int| 0 <= id < views(table@).len() implies (#[trigger] views(
            table@,
        )[id]).finite() && views(table@)[id].len() <= ELEMENT_BOUND by {
            table@[id].lemma_canonical_small();
        }
    }
    table
}

} // verus!
