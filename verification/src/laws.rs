//! What holds of the sets, of their order and of the search, for all inputs.

use crate::bitset::{elements_of, BitSet};
use crate::bounds::footprint;
use crate::order::{
    at_most, lemma_precedes_asymmetric, lemma_precedes_transitive, precedes,
};
use crate::search::{
    chosen, enter, explore_spec, first_cheapest, is_covered, keeps, lemma_branches_shrink,
    lemma_first_cheapest, pivot_of, prepared, stays_left, stays_right, Problem, Run,
};
use crate::tables::{holds, strictly_sorted, union_of};
use vstd::prelude::*;

verus! {

/// The empty set changes nothing in a union and in what it is taken from;
/// it is all that an intersection with it holds, and nothing can be taken
/// from it.
pub proof fn law_empty_identities(a: BitSet, empty: BitSet)
    requires
        empty@ == Set::<nat>::empty(),
    ensures
        a@.union(empty@) == a@,
        a@.intersect(empty@) == empty@,
        a@.difference(empty@) == a@,
        empty@.difference(a@) == empty@,
{
    assert(a@.union(empty@) =~= a@);
    assert(a@.intersect(empty@) =~= empty@);
    assert(a@.difference(empty@) =~= a@);
    assert(empty@.difference(a@) =~= empty@);
}

/// Union and intersection do not depend on the order or the grouping of the
/// sets, and a set united or intersected with itself is itself.
pub proof fn law_union_intersection(a: BitSet, b: BitSet, c: BitSet)
    ensures
        a@.union(b@) == b@.union(a@),
        a@.intersect(b@) == b@.intersect(a@),
        a@.union(b@).union(c@) == a@.union(b@.union(c@)),
        a@.intersect(b@).intersect(c@) == a@.intersect(b@.intersect(c@)),
        a@.union(a@) == a@,
        a@.intersect(a@) == a@,
{
    assert(a@.union(b@) =~= b@.union(a@));
    assert(a@.intersect(b@) =~= b@.intersect(a@));
    assert(a@.union(b@).union(c@) =~= a@.union(b@.union(c@)));
    assert(a@.intersect(b@).intersect(c@) =~= a@.intersect(b@.intersect(c@)));
    assert(a@.union(a@) =~= a@);
    assert(a@.intersect(a@) =~= a@);
}

/// A union has as many elements as the two sets together, less those that
/// both have.
pub proof fn law_union_size(a: BitSet, b: BitSet)
    ensures
        a@.union(b@).len() == a@.len() + b@.len() - a@.intersect(b@).len(),
{
    a.lemma_view_finite();
    b.lemma_view_finite();
    vstd::set_lib::lemma_set_intersect_union_lens(a@, b@);
}

/// A set lies within another exactly where their union is the other, and
/// exactly where nothing is left of it when the other is taken from it.
pub proof fn law_subset(a: BitSet, b: BitSet)
    ensures
        a@.subset_of(b@) <==> a@.union(b@) == b@,
        a@.subset_of(b@) <==> a@.difference(b@) == Set::<nat>::empty(),
{
    if a@.subset_of(b@) {
        assert(a@.union(b@) =~= b@);
        assert(a@.difference(b@) =~= Set::<nat>::empty());
    }
    if a@.union(b@) == b@ {
        assert forall|e: nat| a@.contains(e) implies b@.contains(e) by {
            assert(a@.union(b@).contains(e));
        }
    }
    if a@.difference(b@) == Set::<nat>::empty() {
        assert forall|e: nat| a@.contains(e) implies b@.contains(e) by {
            if !b@.contains(e) {
                assert(a@.difference(b@).contains(e));
            }
        }
    }
}

/// The set of the elements that a set hands out is the set.
pub proof fn law_round_trip(a: BitSet, elements: Seq<i32>)
    requires
        forall|i: int| 0 <= i < elements.len() ==> elements[i] >= 0,
        forall|e: nat| a@.contains(e) <==> exists|i: int| 0 <= i < elements.len() && elements[i] == e,
    ensures
        elements_of(elements) == a@,
{
    assert(elements_of(elements) =~= a@);
}

/// The order of sets is reflexive, antisymmetric and transitive, and of two
/// sets one is at most the other.
pub proof fn law_order(a: BitSet, b: BitSet, c: BitSet)
    ensures
        at_most(a@, a@),
        at_most(a@, b@) && at_most(b@, a@) ==> a@ == b@,
        at_most(a@, b@) && at_most(b@, c@) ==> at_most(a@, c@),
        at_most(a@, b@) || at_most(b@, a@),
{
    if precedes(a@, b@) {
        lemma_precedes_asymmetric(a@, b@);
    }
    if precedes(a@, b@) && precedes(b@, c@) {
        lemma_precedes_transitive(a@, b@, c@);
    }
    a.lemma_order_total(b);
}

/// The ingredients of two lists of recipes are those of the one and those of
/// the other.
pub proof fn lemma_footprint_concat(table: Seq<Set<nat>>, a: Seq<usize>, b: Seq<usize>)
    ensures
        footprint(table, a + b) == footprint(table, a).union(footprint(table, b)),
    decreases b.len(),
{
    if b.len() == 0 {
        assert(a + b =~= a);
        assert(footprint(table, a).union(footprint(table, b)) =~= footprint(table, a));
    } else {
        lemma_footprint_concat(table, a, b.drop_last());
        assert((a + b).drop_last() =~= a + b.drop_last());
        assert((a + b).last() == b.last());
        assert(footprint(table, a + b) =~= footprint(table, a).union(footprint(table, b)));
    }
}

/// Each recipe of a list lies within the ingredients of the list.
pub proof fn lemma_footprint_holds(table: Seq<Set<nat>>, ids: Seq<usize>, i: int)
    requires
        0 <= i < ids.len(),
    ensures
        table[ids[i] as int].subset_of(footprint(table, ids)),
    decreases ids.len(),
{
    if i < ids.len() - 1 {
        lemma_footprint_holds(table, ids.drop_last(), i);
    }
}

/// Where each recipe of a list lies within `ingredients`, so do the
/// ingredients of the list.
pub proof fn lemma_footprint_within(table: Seq<Set<nat>>, ids: Seq<usize>, ingredients: Set<nat>)
    requires
        forall|i: int| 0 <= i < ids.len() ==> table[#[trigger] ids[i] as int].subset_of(ingredients),
    ensures
        footprint(table, ids).subset_of(ingredients),
    decreases ids.len(),
{
    if ids.len() > 0 {
        let front = ids.drop_last();
        assert forall|i: int| 0 <= i < front.len() implies table[#[trigger] front[i] as int].subset_of(
            ingredients,
        ) by {
            assert(front[i] == ids[i]);
        }
        lemma_footprint_within(table, front, ingredients);
        assert(table[ids[ids.len() - 1] as int].subset_of(ingredients));
    }
}

/// The ingredients of the recipes that a solution names are the ingredients
/// of the solution.
pub proof fn lemma_union_of_chosen(table: Seq<Set<nat>>, ids: Seq<usize>, recipes: Seq<Set<nat>>)
    requires
        recipes.len() == ids.len(),
        forall|i: int| 0 <= i < ids.len() ==> #[trigger] recipes[i] == chosen(table, ids, i),
    ensures
        union_of(recipes) == footprint(table, ids),
    decreases ids.len(),
{
    if ids.len() > 0 {
        let front = recipes.drop_last();
        assert forall|i: int| 0 <= i < ids.drop_last().len() implies #[trigger] front[i] == chosen(
            table,
            ids.drop_last(),
            i,
        ) by {
            assert(front[i] == recipes[i]);
            assert(recipes[i] == chosen(table, ids, i));
        }
        lemma_union_of_chosen(table, ids.drop_last(), front);
        assert(recipes.last() == chosen(table, ids, ids.len() - 1));
    }
}

/// Every recipe of a solution lies within the ingredients of the solution.
pub proof fn law_subset_closure(table: Seq<Set<nat>>, solution: Seq<usize>)
    ensures
        forall|i: int|
            0 <= i < solution.len() ==> (#[trigger] chosen(table, solution, i)).subset_of(
                footprint(table, solution),
            ),
{
    assert forall|i: int| 0 <= i < solution.len() implies (#[trigger] chosen(
        table,
        solution,
        i,
    )).subset_of(footprint(table, solution)) by {
        lemma_footprint_holds(table, solution, i);
    }
}

/// Whether a branch fits the budget: the committed recipes do, and so does
/// each candidate together with them.
pub open spec fn fits(p: Problem, candidates: Seq<usize>, partial: Seq<usize>) -> bool {
    &&& footprint(p.table, partial).len() <= p.max_size
    &&& forall|i: int|
        0 <= i < candidates.len() ==> p.table[#[trigger] candidates[i] as int].union(
            footprint(p.table, partial),
        ).len() <= p.max_size
}

/// What a filter lets through was in the sequence, and passes the filter.
pub proof fn lemma_filter_member(s: Seq<usize>, pred: spec_fn(usize) -> bool, i: int) -> (j: int)
    requires
        0 <= i < s.filter(pred).len(),
    ensures
        0 <= j < s.len(),
        s[j] == s.filter(pred)[i],
        pred(s[j]),
{
    let f = s.filter(pred);
    s.lemma_filter_pred(pred, i);
    assert(f.contains(f[i]));
    s.lemma_filter_contains_rev(pred, f[i]);
    choose|j: int| 0 <= j < s.len() && s[j] == f[i]
}

/// The ingredients bought when the pivot is included are those bought
/// before and those of the pivot.
pub proof fn lemma_left_footprint(p: Problem, candidates: Seq<usize>, partial: Seq<usize>)
    requires
        candidates.len() > 0,
    ensures
        ({
            let pivot = pivot_of(p, candidates);
            let ingredients = footprint(p.table, partial).union(p.table[pivot as int]);
            let covered = candidates.filter(is_covered(p.table, ingredients));
            footprint(p.table, partial + covered) == ingredients
        }),
{
    lemma_first_cheapest(p.cost, candidates, candidates.len());
    let at = first_cheapest(p.cost, candidates, candidates.len());
    let pivot = pivot_of(p, candidates);
    let bought = footprint(p.table, partial);
    let ingredients = bought.union(p.table[pivot as int]);
    let covers_all = is_covered(p.table, ingredients);
    let covered = candidates.filter(covers_all);
    lemma_footprint_concat(p.table, partial, covered);
    assert forall|i: int| 0 <= i < covered.len() implies p.table[#[trigger] covered[i] as int].subset_of(
        ingredients,
    ) by {
        candidates.lemma_filter_pred(covers_all, i);
    }
    lemma_footprint_within(p.table, covered, ingredients);
    assert(covers_all(candidates[at]));
    candidates.lemma_filter_contains(covers_all, at);
    let where_pivot = choose|i: int| 0 <= i < covered.len() && covered[i] == pivot;
    lemma_footprint_holds(p.table, covered, where_pivot);
    assert(footprint(p.table, partial + covered) =~= ingredients);
}

/// Including the pivot of a branch that fits the budget gives a branch that
/// fits it.
pub proof fn lemma_left_fits(p: Problem, candidates: Seq<usize>, partial: Seq<usize>, masks: Seq<Set<nat>>)
    requires
        candidates.len() > 0,
        fits(p, candidates, partial),
    ensures
        ({
            let pivot = pivot_of(p, candidates);
            let ingredients = footprint(p.table, partial).union(p.table[pivot as int]);
            let covered = candidates.filter(is_covered(p.table, ingredients));
            let left = candidates.filter(stays_left(p.table, ingredients, p.max_size, masks));
            fits(p, left, partial + covered)
        }),
{
    lemma_first_cheapest(p.cost, candidates, candidates.len());
    let at = first_cheapest(p.cost, candidates, candidates.len());
    let pivot = pivot_of(p, candidates);
    let bought = footprint(p.table, partial);
    let ingredients = bought.union(p.table[pivot as int]);
    let stays = stays_left(p.table, ingredients, p.max_size, masks);
    let covered = candidates.filter(is_covered(p.table, ingredients));
    let left = candidates.filter(stays);
    lemma_left_footprint(p, candidates, partial);
    assert(ingredients =~= p.table[candidates[at] as int].union(bought));
    assert forall|i: int| 0 <= i < left.len() implies p.table[#[trigger] left[i] as int].union(
        footprint(p.table, partial + covered),
    ).len() <= p.max_size by {
        candidates.lemma_filter_pred(stays, i);
    }
}

/// Excluding the pivot of a branch that fits the budget gives a branch that
/// fits it.
pub proof fn lemma_right_fits(p: Problem, candidates: Seq<usize>, partial: Seq<usize>)
    requires
        fits(p, candidates, partial),
    ensures
        fits(
            p,
            candidates.filter(
                stays_right(p.table, pivot_of(p, candidates), footprint(p.table, partial)),
            ),
            partial,
        ),
{
    let stays = stays_right(p.table, pivot_of(p, candidates), footprint(p.table, partial));
    let right = candidates.filter(stays);
    assert forall|i: int| 0 <= i < right.len() implies p.table[#[trigger] right[i] as int].union(
        footprint(p.table, partial),
    ).len() <= p.max_size by {
        let j = lemma_filter_member(candidates, stays, i);
        assert(p.table[candidates[j] as int].union(footprint(p.table, partial)).len()
            <= p.max_size);
    }
}

/// From a branch that fits the budget, with a best solution that fits it,
/// the search ends with a best solution that fits it.
pub proof fn law_feasible(
    p: Problem,
    run: Run,
    candidates: Seq<usize>,
    partial: Seq<usize>,
    masks: Seq<Set<nat>>,
)
    requires
        fits(p, candidates, partial),
        footprint(p.table, run.best).len() <= p.max_size,
    ensures
        footprint(p.table, explore_spec(p, run, candidates, partial, masks).best).len()
            <= p.max_size,
    decreases candidates.len(),
{
    if run.calls > 0 {
        let entered = enter(run, partial);
        if candidates.len() > 0 && keeps(p, entered.score, candidates, partial) {
            lemma_branches_shrink(p, candidates, partial, masks);
            let pivot = pivot_of(p, candidates);
            let bought = footprint(p.table, partial);
            let ingredients = bought.union(p.table[pivot as int]);
            let covered = candidates.filter(is_covered(p.table, ingredients));
            let left = candidates.filter(stays_left(p.table, ingredients, p.max_size, masks));
            lemma_left_fits(p, candidates, partial, masks);
            law_feasible(p, entered, left, partial + covered, masks);
            let after_left = explore_spec(p, entered, left, partial + covered, masks);
            let right = candidates.filter(stays_right(p.table, pivot, bought));
            lemma_right_fits(p, candidates, partial);
            law_feasible(p, after_left, right, partial, masks.push(p.table[pivot as int]));
        }
    }
}

/// The search never lowers the size of the best solution, which stays the
/// size that is recorded for it; it makes no more entries than it had calls
/// for, and each entry costs one call.
pub proof fn law_progress(
    p: Problem,
    run: Run,
    candidates: Seq<usize>,
    partial: Seq<usize>,
    masks: Seq<Set<nat>>,
)
    ensures
        ({
            let end = explore_spec(p, run, candidates, partial, masks);
            &&& end.score >= run.score
            &&& run.score == run.best.len() ==> end.score == end.best.len()
            &&& end.counter >= run.counter
            &&& run.calls <= 0 ==> end.calls == run.calls && end.counter == run.counter
            &&& run.calls > 0 ==> end.calls >= 0 && end.counter - run.counter == run.calls
                - end.calls
            &&& run.exhausted ==> end.exhausted
            &&& end.calls > 0 ==> end.exhausted == run.exhausted
        }),
    decreases candidates.len(),
{
    if run.calls > 0 {
        let entered = enter(run, partial);
        if candidates.len() > 0 && keeps(p, entered.score, candidates, partial) {
            lemma_branches_shrink(p, candidates, partial, masks);
            let pivot = pivot_of(p, candidates);
            let bought = footprint(p.table, partial);
            let ingredients = bought.union(p.table[pivot as int]);
            let covered = candidates.filter(is_covered(p.table, ingredients));
            let left = candidates.filter(stays_left(p.table, ingredients, p.max_size, masks));
            law_progress(p, entered, left, partial + covered, masks);
            let after_left = explore_spec(p, entered, left, partial + covered, masks);
            let right = candidates.filter(stays_right(p.table, pivot, bought));
            law_progress(p, after_left, right, partial, masks.push(p.table[pivot as int]));
        }
    }
}

/// Two tables in the order of sets that hold the same recipes are the same table.
pub proof fn lemma_sorted_same(s: Seq<Set<nat>>, t: Seq<Set<nat>>, n: int)
    requires
        strictly_sorted(s),
        strictly_sorted(t),
        forall|r: Set<nat>| holds(s, r) <==> holds(t, r),
        0 <= n <= s.len(),
        0 <= n <= t.len(),
    ensures
        forall|i: int| 0 <= i < n ==> s[i] == t[i],
    decreases n,
{
    if n > 0 {
        lemma_sorted_same(s, t, n - 1);
        let i = n - 1;
        assert(holds(s, s[i]));
        let j = choose|j: int| 0 <= j < t.len() && #[trigger] t[j] == s[i];
        assert(holds(t, t[i]));
        let k = choose|k: int| 0 <= k < s.len() && #[trigger] s[k] == t[i];
        if j < i {
            assert(s[j] == t[j]);
            lemma_precedes_asymmetric(s[j], s[i]);
        } else if j > i {
            if k < i {
                assert(s[k] == t[k]);
                lemma_precedes_asymmetric(t[k], t[i]);
            } else if k > i {
                lemma_precedes_asymmetric(t[i], t[j]);
                assert(precedes(s[i], s[k]));
            }
        }
    }
}

/// The search is a function of what it is given: two problems made of the
/// same recipes, with the same budget and the same bounds, are the same
/// problem, and the search ends the same on both.
pub proof fn law_deterministic(
    p: Problem,
    q: Problem,
    given: Set<Set<nat>>,
    run: Run,
    candidates: Seq<usize>,
    partial: Seq<usize>,
    masks: Seq<Set<nat>>,
)
    requires
        prepared(p, given),
        prepared(q, given),
        p.max_size == q.max_size,
        p.bounds == q.bounds,
    ensures
        p == q,
        explore_spec(p, run, candidates, partial, masks) == explore_spec(
            q,
            run,
            candidates,
            partial,
            masks,
        ),
{
    assert forall|r: Set<nat>| holds(p.table, r) <==> holds(q.table, r) by {
        assert(holds(p.table, r) <==> given.contains(r));
        assert(holds(q.table, r) <==> given.contains(r));
    }
    lemma_sorted_same(p.table, q.table, p.table.len() as int);
    assert(p.table =~= q.table);
    assert(p.min_cover =~= q.min_cover);
    assert(p.cost =~= q.cost);
}

} // verus!
