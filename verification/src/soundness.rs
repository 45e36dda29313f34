//! Why the bounds that the library has are sound: on every branch of the
//! search, ingredients that can still be reached cover no more candidates
//! than each bound says.

use crate::bounds::{
    after_removals, at_most_u64, concentration_bound, footprint, gains, has_unique,
    singleton_bound, slack, BoundEntry,
};
use crate::laws::{lemma_filter_member, lemma_footprint_holds};
use crate::optimal::{admissible, lemma_filter_no_duplicates, sound_at, valid_branch};
use crate::search::{context_of, is_covered, within, Problem};
use crate::bounds::default_bounds;
use crate::optimal::{lemma_total_sound, sound_bounds};
use crate::tables::{
    card, card_upto, lemma_card_positive, min_below, min_cover_of, small_recipes, ELEMENT_BOUND,
};
use vstd::prelude::*;

verus! {

/// Whether the table of least counts holds, for each recipe, the least
/// number of recipes that one of its ingredients is used by.
pub open spec fn least_counts_hold(p: Problem) -> bool {
    &&& p.min_cover.len() == p.table.len()
    &&& forall|id: int|
        0 <= id < p.table.len() ==> #[trigger] p.min_cover[id] == min_cover_of(p.table, p.table[id])
}

/// An ingredient that two of the first `n` recipes use is used by at least two.
pub proof fn lemma_card_two(table: Seq<Set<nat>>, n: nat, e: nat, i: int, j: int)
    requires
        0 <= i < j < n,
        table[i].contains(e),
        table[j].contains(e),
    ensures
        card_upto(table, n, e) >= 2,
    decreases n,
{
    if j == n - 1 {
        lemma_card_positive(table, (n - 1) as nat, e, i);
    } else {
        lemma_card_two(table, (n - 1) as nat, e, i, j);
    }
}

/// A least count is the count of one of the ingredients.
pub proof fn lemma_min_attained(table: Seq<Set<nat>>, r: Set<nat>, bound: nat) -> (e: nat)
    requires
        min_below(table, r, bound) < usize::MAX,
    ensures
        e < bound,
        r.contains(e),
        card(table, e) == min_below(table, r, bound),
    decreases bound,
{
    let last = (bound - 1) as nat;
    let rest = min_below(table, r, last);
    if r.contains(last) && card(table, last) < rest {
        last
    } else {
        lemma_min_attained(table, r, last)
    }
}

/// An ingredient of a list of recipes is an ingredient of one of them.
pub proof fn lemma_footprint_member(table: Seq<Set<nat>>, ids: Seq<usize>, e: nat) -> (i: int)
    requires
        footprint(table, ids).contains(e),
    ensures
        0 <= i < ids.len(),
        table[ids[i] as int].contains(e),
    decreases ids.len(),
{
    if table[ids.last() as int].contains(e) {
        ids.len() - 1
    } else {
        lemma_footprint_member(table, ids.drop_last(), e)
    }
}

/// Both of two conditions.
pub open spec fn both(a: spec_fn(usize) -> bool, b: spec_fn(usize) -> bool) -> spec_fn(usize) -> bool {
    |v: usize| a(v) && b(v)
}

/// The first of two conditions without the second.
pub open spec fn without(a: spec_fn(usize) -> bool, b: spec_fn(usize) -> bool) -> spec_fn(
    usize,
) -> bool {
    |v: usize| a(v) && !b(v)
}

/// What passes a filter passes it with a second condition or without it.
pub proof fn lemma_filter_split(s: Seq<usize>, a: spec_fn(usize) -> bool, b: spec_fn(usize) -> bool)
    ensures
        s.filter(a).len() == s.filter(both(a, b)).len() + s.filter(without(a, b)).len(),
    decreases s.len(),
{
    if s.len() == 0 {
        s.lemma_filter_len(a);
        s.lemma_filter_len(both(a, b));
        s.lemma_filter_len(without(a, b));
    } else {
        let front = s.drop_last();
        assert(s =~= front.push(s.last()));
        front.lemma_filter_push(s.last(), a);
        front.lemma_filter_push(s.last(), both(a, b));
        front.lemma_filter_push(s.last(), without(a, b));
        lemma_filter_split(front, a, b);
    }
}

/// A filter lets no more through than a filter that asks less.
pub proof fn lemma_filter_weaker(s: Seq<usize>, a: spec_fn(usize) -> bool, b: spec_fn(usize) -> bool)
    requires
        forall|v: usize| #[trigger] a(v) ==> b(v),
    ensures
        s.filter(a).len() <= s.filter(b).len(),
    decreases s.len(),
{
    if s.len() == 0 {
        s.lemma_filter_len(a);
    } else {
        let front = s.drop_last();
        assert(s =~= front.push(s.last()));
        front.lemma_filter_push(s.last(), a);
        front.lemma_filter_push(s.last(), b);
        lemma_filter_weaker(front, a, b);
    }
}

/// The condition that everything meets.
pub open spec fn anything() -> spec_fn(usize) -> bool {
    |v: usize| true
}

/// The filter that asks nothing lets everything through.
pub proof fn lemma_filter_anything(s: Seq<usize>)
    ensures
        s.filter(anything()).len() == s.len(),
    decreases s.len(),
{
    if s.len() == 0 {
        s.lemma_filter_len(anything());
    } else {
        let front = s.drop_last();
        assert(s =~= front.push(s.last()));
        front.lemma_filter_push(s.last(), anything());
        lemma_filter_anything(front);
    }
}

/// An ingredient of recipe `id` that no other recipe uses.
pub open spec fn own_ingredient(table: Seq<Set<nat>>, id: usize) -> nat {
    choose|e: nat| table[id as int].contains(e) && card(table, e) == 1
}

/// The candidates that have an ingredient of their own and are covered by
/// ingredients that can still be reached are no more than the budget has
/// room for.
pub proof fn lemma_unique_covered(
    p: Problem,
    candidates: Seq<usize>,
    partial: Seq<usize>,
    masks: Seq<Set<nat>>,
    x: Set<nat>,
)
    requires
        valid_branch(p, candidates, partial, masks),
        least_counts_hold(p),
        admissible(p, partial, masks, x),
    ensures
        candidates.filter(both(is_covered(p.table, x), has_unique(p.min_cover))).len() <= slack(
            context_of(p, candidates, partial),
        ),
{
    let table = p.table;
    let bought = footprint(table, partial);
    let pred = both(is_covered(table, x), has_unique(p.min_cover));
    let cu = candidates.filter(pred);
    lemma_filter_no_duplicates(candidates, pred);
    let es = Seq::new(cu.len(), |i: int| own_ingredient(table, cu[i]));
    assert forall|i: int| 0 <= i < cu.len() implies {
        &&& cu[i] < table.len()
        &&& candidates.contains(cu[i])
        &&& table[cu[i] as int].subset_of(x)
        &&& table[cu[i] as int].contains(#[trigger] es[i])
        &&& card(table, es[i]) == 1
    } by {
        let j = lemma_filter_member(candidates, pred, i);
        let id = cu[i];
        assert(p.min_cover[id as int] == min_cover_of(table, table[id as int]));
        let e = lemma_min_attained(table, table[id as int], ELEMENT_BOUND as nat);
        assert(table[id as int].contains(e) && card(table, e) == 1);
    }
    assert forall|i: int, j: int| 0 <= i < es.len() && 0 <= j < es.len() && i != j implies es[i]
        != es[j] by {
        if es[i] == es[j] {
            assert(table[cu[i] as int].contains(es[i]));
            assert(table[cu[j] as int].contains(es[j]));
            if cu[i] < cu[j] {
                lemma_card_two(table, table.len(), es[i], cu[i] as int, cu[j] as int);
            } else {
                lemma_card_two(table, table.len(), es[i], cu[j] as int, cu[i] as int);
            }
        }
    }
    assert(es.no_duplicates());
    es.unique_seq_to_set();
    let room = x.difference(bought);
    assert(es.to_set().subset_of(room)) by {
        assert forall|e: nat| es.to_set().contains(e) implies room.contains(e) by {
            let i = choose|i: int| 0 <= i < es.len() && es[i] == e;
            assert(table[cu[i] as int].contains(es[i]));
            if bought.contains(e) {
                let j = lemma_footprint_member(table, partial, e);
                let other = partial[j];
                assert(other < table.len());
                let k = choose|k: int| 0 <= k < candidates.len() && candidates[k] == cu[i];
                assert(candidates[k] != partial[j]);
                if cu[i] < other {
                    lemma_card_two(table, table.len(), e, cu[i] as int, other as int);
                } else {
                    lemma_card_two(table, table.len(), e, other as int, cu[i] as int);
                }
            }
        }
    }
    vstd::set_lib::lemma_set_subset_finite(x, bought);
    vstd::set_lib::lemma_set_subset_finite(x, room);
    vstd::set_lib::lemma_len_subset(es.to_set(), room);
    vstd::set_lib::lemma_set_difference_len(x, bought);
    assert(x.intersect(bought) =~= bought);
    vstd::set_lib::lemma_len_subset(bought, x);
}

/// The bound by ingredients of their own is sound.
pub proof fn lemma_singleton_sound(p: Problem, candidates: Seq<usize>, partial: Seq<usize>, masks: Seq<Set<nat>>)
    requires
        valid_branch(p, candidates, partial, masks),
        least_counts_hold(p),
    ensures
        sound_at(BoundEntry::Singleton, p, candidates, partial, masks),
{
    let context = context_of(p, candidates, partial);
    let unique = has_unique(p.min_cover);
    assert forall|x: Set<nat>| #[trigger] admissible(p, partial, masks, x) implies candidates.filter(
        is_covered(p.table, x),
    ).len() <= singleton_bound(context) by {
        let covered = is_covered(p.table, x);
        lemma_filter_split(candidates, covered, unique);
        lemma_unique_covered(p, candidates, partial, masks, x);
        lemma_filter_weaker(candidates, both(covered, unique), unique);
        lemma_filter_split(candidates, anything(), unique);
        lemma_filter_anything(candidates);
        lemma_filter_weaker(candidates, without(covered, unique), without(anything(), unique));
        lemma_filter_weaker(candidates, both(anything(), unique), unique);
        lemma_filter_weaker(candidates, unique, both(anything(), unique));
    }
}

/// The sum of a sequence of numbers.
pub open spec fn total(s: Seq<u64>) -> nat
    decreases s.len(),
{
    if s.len() == 0 {
        0
    } else {
        total(s.drop_last()) + s.last() as nat
    }
}

/// The sum of the `t` last numbers of a sequence.
pub open spec fn top(a: Seq<u64>, t: nat) -> nat {
    total(a.subrange(a.len() - t, a.len() as int))
}

/// A sum is one of its numbers and the sum of the others.
pub proof fn lemma_total_remove(s: Seq<u64>, q: int)
    requires
        0 <= q < s.len(),
    ensures
        total(s) == s[q] + total(s.remove(q)),
    decreases s.len(),
{
    if q == s.len() - 1 {
        assert(s.remove(q) =~= s.drop_last());
    } else {
        lemma_total_remove(s.drop_last(), q);
        assert(s.remove(q).drop_last() =~= s.drop_last().remove(q));
        assert(s.remove(q).last() == s.last());
    }
}

/// Numbers taken from a sequence that is sorted add up to no more than as
/// many of its last numbers.
pub proof fn lemma_top_sum(a: Seq<u64>, rs: Seq<u64>)
    requires
        forall|i: int, j: int| 0 <= i < j < a.len() ==> a[i] <= a[j],
        rs.to_multiset().subset_of(a.to_multiset()),
    ensures
        rs.len() <= a.len(),
        total(rs) <= top(a, rs.len()),
    decreases a.len(),
{
    broadcast use vstd::multiset::group_multiset_axioms;

    a.to_multiset_ensures();
    rs.to_multiset_ensures();
    if rs.len() == 0 {
        assert(a.subrange(a.len() - 0, a.len() as int) =~= Seq::<u64>::empty());
    } else {
        assert(rs.contains(rs[0]));
        assert(rs.to_multiset().count(rs[0]) <= a.to_multiset().count(rs[0]));
        assert(a.contains(rs[0]));
        let n = a.len() as int;
        let last = a.last();
        let front = a.drop_last();
        let q = if rs.contains(last) {
            choose|q: int| 0 <= q < rs.len() && rs[q] == last
        } else {
            0
        };
        let rest = rs.remove(q);
        assert(front =~= a.remove(n - 1));
        assert(rs.contains(rs[q]));
        assert(rs.to_multiset().count(rs[q]) <= a.to_multiset().count(rs[q]));
        assert(a.contains(rs[q]));
        let at = choose|i: int| 0 <= i < a.len() && a[i] == rs[q];
        assert(rs[q] <= last);
        assert(rest.to_multiset().subset_of(front.to_multiset())) by {
            assert forall|v: u64| rest.to_multiset().count(v) <= front.to_multiset().count(v) by {
                assert(rs.to_multiset().count(v) <= a.to_multiset().count(v));
                if !rs.contains(last) {
                    assert(rs.to_multiset().count(last) == 0);
                }
            }
        }
        assert forall|i: int, j: int| 0 <= i < j < front.len() implies front[i] <= front[j] by {
            assert(front[i] == a[i] && front[j] == a[j]);
        }
        lemma_top_sum(front, rest);
        lemma_total_remove(rs, q);
        let tail = a.subrange(n - rs.len(), n);
        assert(tail.drop_last() =~= front.subrange(front.len() - rest.len(), front.len() as int));
        assert(tail.last() == last);
    }
}

/// Where the `r` largest gains make up for the excess, removals leave at
/// least all but `r` candidates.
pub proof fn lemma_removals(a: Seq<u64>, taken: nat, excess: int, r: nat)
    requires
        taken <= r <= a.len(),
        top(a, r) >= excess,
    ensures
        after_removals(a, taken, excess - top(a, taken), (a.len() - taken) as nat) >= a.len() - r,
    decreases a.len() - taken,
{
    let n = a.len() as int;
    let left = excess - top(a, taken);
    if taken < a.len() && left > 0 {
        let sub = a.subrange(n - taken - 1, n);
        lemma_total_remove(sub, 0);
        assert(sub.remove(0) =~= a.subrange(n - taken, n));
        assert(top(a, taken + 1) == top(a, taken) + a[n - 1 - taken]);
        lemma_removals(a, taken + 1, excess, r);
    }
}

/// The gains of the candidates that pass a filter are among the gains of
/// the candidates.
pub proof fn lemma_gains_among(
    table: Seq<Set<nat>>,
    candidates: Seq<usize>,
    pred: spec_fn(usize) -> bool,
    bought: Set<nat>,
)
    ensures
        gains(table, candidates.filter(pred), bought).to_multiset().subset_of(
            gains(table, candidates, bought).to_multiset(),
        ),
    decreases candidates.len(),
{
    broadcast use vstd::multiset::group_multiset_axioms;

    if candidates.len() == 0 {
        candidates.lemma_filter_len(pred);
        assert(gains(table, candidates.filter(pred), bought) =~= gains(table, candidates, bought));
    } else {
        let front = candidates.drop_last();
        let last = candidates.last();
        let gain = table[last as int].difference(bought).len() as u64;
        assert(candidates =~= front.push(last));
        front.lemma_filter_push(last, pred);
        lemma_gains_among(table, front, pred, bought);
        assert(gains(table, candidates, bought) =~= gains(table, front, bought).push(gain));
        vstd::seq_lib::to_multiset_build(gains(table, front, bought), gain);
        if pred(last) {
            assert(gains(table, candidates.filter(pred), bought) =~= gains(
                table,
                front.filter(pred),
                bought,
            ).push(gain));
            vstd::seq_lib::to_multiset_build(gains(table, front.filter(pred), bought), gain);
        }
    }
}

/// The ingredients of a list of recipes that are not yet bought are no more
/// than the gains of the recipes add up to.
pub proof fn lemma_gain_union(table: Seq<Set<nat>>, ids: Seq<usize>, bought: Set<nat>)
    requires
        small_recipes(table),
        within(ids, table.len()),
    ensures
        footprint(table, ids).difference(bought).finite(),
        footprint(table, ids).difference(bought).len() <= total(gains(table, ids, bought)),
    decreases ids.len(),
{
    if ids.len() == 0 {
        assert(footprint(table, ids).difference(bought) =~= Set::<nat>::empty());
    } else {
        let front = ids.drop_last();
        let last = ids.last();
        assert forall|i: int| 0 <= i < front.len() implies #[trigger] front[i] < table.len() by {
            assert(front[i] == ids[i]);
        }
        lemma_gain_union(table, front, bought);
        let recipe = table[last as int];
        let fresh = recipe.difference(bought);
        let before = footprint(table, front).difference(bought);
        assert(ids[ids.len() - 1] < table.len());
        assert(recipe.finite());
        vstd::set_lib::lemma_len_difference(recipe, bought);
        assert(footprint(table, ids).difference(bought) =~= before.union(fresh));
        vstd::set_lib::lemma_len_union(before, fresh);
        assert(gains(table, ids, bought).drop_last() =~= gains(table, front, bought));
        assert(gains(table, ids, bought).last() == fresh.len() as u64);
    }
}

/// The candidates that ingredients within reach do not cover gain at least
/// the ingredients by which all candidates together exceed the budget.
pub proof fn lemma_removed_gain(
    p: Problem,
    candidates: Seq<usize>,
    partial: Seq<usize>,
    masks: Seq<Set<nat>>,
    x: Set<nat>,
)
    requires
        small_recipes(p.table),
        within(candidates, p.table.len()),
        admissible(p, partial, masks, x),
    ensures
        footprint(p.table, candidates).union(footprint(p.table, partial)).len() - p.max_size
            <= total(
            gains(
                p.table,
                candidates.filter(without(anything(), is_covered(p.table, x))),
                footprint(p.table, partial),
            ),
        ),
{
    let table = p.table;
    let bought = footprint(table, partial);
    let missed = without(anything(), is_covered(table, x));
    let removed = candidates.filter(missed);
    let all = footprint(table, candidates).union(bought);
    let fresh = footprint(table, removed).difference(bought);
    crate::search::lemma_filter_within(candidates, missed, table.len());
    lemma_gain_union(table, removed, bought);
    assert(all.subset_of(x.union(fresh))) by {
        assert forall|e: nat| all.contains(e) implies x.union(fresh).contains(e) by {
            if !bought.contains(e) {
                let i = lemma_footprint_member(table, candidates, e);
                if !table[candidates[i] as int].subset_of(x) {
                    assert(missed(candidates[i]));
                    candidates.lemma_filter_contains(missed, i);
                    let j = choose|j: int| 0 <= j < removed.len() && removed[j] == candidates[i];
                    lemma_footprint_holds(table, removed, j);
                }
            }
        }
    }
    vstd::set_lib::lemma_len_union(x, fresh);
    assert(x.union(fresh).finite());
    vstd::set_lib::lemma_len_subset(all, x.union(fresh));
}

/// The bound by concentration is sound.
pub proof fn lemma_concentration_sound(
    p: Problem,
    candidates: Seq<usize>,
    partial: Seq<usize>,
    masks: Seq<Set<nat>>,
)
    requires
        valid_branch(p, candidates, partial, masks),
        small_recipes(p.table),
    ensures
        sound_at(BoundEntry::Concentration, p, candidates, partial, masks),
{
    let context = context_of(p, candidates, partial);
    let table = p.table;
    let bought = footprint(table, partial);
    assert forall|x: Set<nat>| #[trigger] admissible(p, partial, masks, x) implies candidates.filter(
        is_covered(table, x),
    ).len() <= concentration_bound(context) by {
        let covered = is_covered(table, x);
        let missed = without(anything(), covered);
        let all = footprint(table, candidates).union(bought);
        candidates.lemma_filter_len(covered);
        if all.len() > p.max_size {
            let given = gains(table, candidates, bought);
            let sorted = given.sort_by(at_most_u64());
            let removed = gains(table, candidates.filter(missed), bought);
            lemma_filter_split(candidates, anything(), covered);
            lemma_filter_anything(candidates);
            lemma_filter_weaker(candidates, both(anything(), covered), covered);
            lemma_filter_weaker(candidates, covered, both(anything(), covered));
            assert(vstd::relations::total_ordering(at_most_u64()));
            given.lemma_sort_by_ensures(at_most_u64());
            given.to_multiset_ensures();
            sorted.to_multiset_ensures();
            lemma_gains_among(table, candidates, missed, bought);
            assert forall|i: int, j: int| 0 <= i < j < sorted.len() implies sorted[i]
                <= sorted[j] by {
                assert(at_most_u64()(sorted[i], sorted[j]));
            }
            lemma_top_sum(sorted, removed);
            lemma_removed_gain(p, candidates, partial, masks, x);
            assert(sorted.subrange(sorted.len() - 0, sorted.len() as int) =~= Seq::<u64>::empty());
            lemma_removals(sorted, 0, all.len() - p.max_size, removed.len());
        }
    }
}

/// The three bounds that the library has are sound on every branch of the
/// search, over recipes that are finite sets and tables that hold what is
/// counted over them.
pub proof fn law_default_bounds_sound(p: Problem)
    requires
        p.bounds == default_bounds(),
        least_counts_hold(p),
        small_recipes(p.table),
    ensures
        sound_bounds(p),
{
    assert forall|i: int, candidates: Seq<usize>, partial: Seq<usize>, masks: Seq<Set<nat>>|
        0 <= i < p.bounds.len() && #[trigger] valid_branch(
            p,
            candidates,
            partial,
            masks,
        ) implies sound_at(#[trigger] p.bounds[i], p, candidates, partial, masks) by {
        lemma_total_sound(p, candidates, partial, masks);
        lemma_singleton_sound(p, candidates, partial, masks);
        lemma_concentration_sound(p, candidates, partial, masks);
    }
}

} // verus!
