//! Why the best solution of a search holds every recipe that its ingredients
//! cover: on each branch the committed recipes are all that their
//! ingredients cover.

use crate::bounds::footprint;
use crate::forbidden::blocked;
use crate::laws::{fits, lemma_filter_member, lemma_left_fits, lemma_left_footprint, lemma_right_fits};
use crate::optimal::{
    admissible, covers, lemma_left_valid, lemma_right_valid, valid_branch,
};
use crate::search::{
    enter, explore_spec, first_cheapest, is_covered, keeps, lemma_branches_shrink,
    lemma_first_cheapest, pivot_of, stays_left, stays_right, within, Problem, Run,
};
use crate::tables::small_recipes;
use vstd::prelude::*;

verus! {

/// Whether a solution holds every recipe of the table that its ingredients cover.
pub open spec fn closed(table: Seq<Set<nat>>, solution: Seq<usize>) -> bool {
    forall|id: usize| #[trigger]
        covers(table, footprint(table, solution), id) ==> solution.contains(id)
}

/// What holds of every branch of a search over recipes that each fit the
/// budget and have an ingredient: the branch is one of the search and fits
/// the budget, no candidate is covered by what is bought, and neither what
/// is bought nor a candidate together with it covers an excluded recipe.
pub open spec fn open_branch(p: Problem, candidates: Seq<usize>, partial: Seq<usize>, masks: Seq<Set<nat>>) -> bool {
    &&& valid_branch(p, candidates, partial, masks)
    &&& fits(p, candidates, partial)
    &&& small_recipes(p.table)
    &&& !blocked(masks, footprint(p.table, partial))
    &&& forall|i: int|
        0 <= i < candidates.len() ==> !p.table[#[trigger] candidates[i] as int].subset_of(
            footprint(p.table, partial),
        )
    &&& forall|i: int|
        0 <= i < candidates.len() ==> !blocked(
            masks,
            p.table[#[trigger] candidates[i] as int].union(footprint(p.table, partial)),
        )
}

/// The ingredients of a list of finite recipes are a finite set.
pub proof fn lemma_footprint_finite(table: Seq<Set<nat>>, ids: Seq<usize>)
    requires
        small_recipes(table),
        within(ids, table.len()),
    ensures
        footprint(table, ids).finite(),
    decreases ids.len(),
{
    if ids.len() > 0 {
        let front = ids.drop_last();
        assert forall|i: int| 0 <= i < front.len() implies #[trigger] front[i] < table.len() by {
            assert(front[i] == ids[i]);
        }
        lemma_footprint_finite(table, front);
        assert(ids[ids.len() - 1] < table.len());
        assert(table[ids.last() as int].finite());
    }
}

/// On such a branch the committed recipes are all that their ingredients cover.
pub proof fn lemma_branch_closed(p: Problem, candidates: Seq<usize>, partial: Seq<usize>, masks: Seq<Set<nat>>)
    requires
        open_branch(p, candidates, partial, masks),
    ensures
        closed(p.table, partial),
{
    let bought = footprint(p.table, partial);
    lemma_footprint_finite(p.table, partial);
    assert(admissible(p, partial, masks, bought));
    assert forall|id: usize| #[trigger] covers(p.table, bought, id) implies partial.contains(id) by {
        if !partial.contains(id) {
            assert(candidates.contains(id));
            let i = choose|i: int| 0 <= i < candidates.len() && candidates[i] == id;
            assert(!p.table[candidates[i] as int].subset_of(bought));
        }
    }
}

/// Including the pivot of such a branch gives such a branch.
pub proof fn lemma_left_open(p: Problem, candidates: Seq<usize>, partial: Seq<usize>, masks: Seq<Set<nat>>)
    requires
        candidates.len() > 0,
        open_branch(p, candidates, partial, masks),
    ensures
        ({
            let pivot = pivot_of(p, candidates);
            let ingredients = footprint(p.table, partial).union(p.table[pivot as int]);
            let covered = candidates.filter(is_covered(p.table, ingredients));
            let left = candidates.filter(stays_left(p.table, ingredients, p.max_size, masks));
            open_branch(p, left, partial + covered, masks)
        }),
{
    lemma_first_cheapest(p.cost, candidates, candidates.len());
    let at = first_cheapest(p.cost, candidates, candidates.len());
    let pivot = pivot_of(p, candidates);
    let bought = footprint(p.table, partial);
    let ingredients = bought.union(p.table[pivot as int]);
    let stays = stays_left(p.table, ingredients, p.max_size, masks);
    let covered = candidates.filter(is_covered(p.table, ingredients));
    let left = candidates.filter(stays);
    lemma_left_valid(p, candidates, partial, masks);
    lemma_left_fits(p, candidates, partial, masks);
    lemma_left_footprint(p, candidates, partial);
    assert(ingredients =~= p.table[candidates[at] as int].union(bought));
    assert forall|i: int| 0 <= i < left.len() implies !p.table[#[trigger] left[i] as int].subset_of(
        footprint(p.table, partial + covered),
    ) && !blocked(
        masks,
        p.table[left[i] as int].union(footprint(p.table, partial + covered)),
    ) by {
        candidates.lemma_filter_pred(stays, i);
    }
}

/// Excluding the pivot of such a branch gives such a branch.
pub proof fn lemma_right_open(p: Problem, candidates: Seq<usize>, partial: Seq<usize>, masks: Seq<Set<nat>>)
    requires
        candidates.len() > 0,
        open_branch(p, candidates, partial, masks),
    ensures
        ({
            let pivot = pivot_of(p, candidates);
            let right = candidates.filter(
                stays_right(p.table, pivot, footprint(p.table, partial)),
            );
            open_branch(p, right, partial, masks.push(p.table[pivot as int]))
        }),
{
    lemma_first_cheapest(p.cost, candidates, candidates.len());
    let at = first_cheapest(p.cost, candidates, candidates.len());
    let pivot = pivot_of(p, candidates);
    let bought = footprint(p.table, partial);
    let stays = stays_right(p.table, pivot, bought);
    let right = candidates.filter(stays);
    let excluded = masks.push(p.table[pivot as int]);
    lemma_right_valid(p, candidates, partial, masks);
    lemma_right_fits(p, candidates, partial);
    assert(!p.table[candidates[at] as int].subset_of(bought));
    assert(!blocked(excluded, bought)) by {
        if blocked(excluded, bought) {
            let i = choose|i: int| 0 <= i < excluded.len() && (#[trigger] excluded[i]).subset_of(bought);
            if i < masks.len() {
                assert(masks[i].subset_of(bought));
            }
        }
    }
    assert forall|i: int| 0 <= i < right.len() implies !p.table[#[trigger] right[i] as int].subset_of(
        bought,
    ) && !blocked(excluded, p.table[right[i] as int].union(bought)) by {
        let j = lemma_filter_member(candidates, stays, i);
        let joined = p.table[candidates[j] as int].union(bought);
        assert(!p.table[candidates[j] as int].subset_of(bought));
        assert(!blocked(masks, joined));
        if blocked(excluded, joined) {
            let k = choose|k: int| 0 <= k < excluded.len() && (#[trigger] excluded[k]).subset_of(joined);
            if k < masks.len() {
                assert(masks[k].subset_of(joined));
            }
        }
    }
}

/// From such a branch, with a best solution that holds every recipe that
/// its ingredients cover, the search ends with such a best solution.
pub proof fn law_closed(
    p: Problem,
    run: Run,
    candidates: Seq<usize>,
    partial: Seq<usize>,
    masks: Seq<Set<nat>>,
)
    requires
        open_branch(p, candidates, partial, masks),
        closed(p.table, run.best),
    ensures
        closed(p.table, explore_spec(p, run, candidates, partial, masks).best),
    decreases candidates.len(),
{
    if run.calls > 0 {
        let entered = enter(run, partial);
        lemma_branch_closed(p, candidates, partial, masks);
        if candidates.len() > 0 && keeps(p, entered.score, candidates, partial) {
            lemma_branches_shrink(p, candidates, partial, masks);
            let pivot = pivot_of(p, candidates);
            let bought = footprint(p.table, partial);
            let ingredients = bought.union(p.table[pivot as int]);
            let covered = candidates.filter(is_covered(p.table, ingredients));
            let left = candidates.filter(stays_left(p.table, ingredients, p.max_size, masks));
            let after_left = explore_spec(p, entered, left, partial + covered, masks);
            let right = candidates.filter(stays_right(p.table, pivot, bought));
            lemma_left_open(p, candidates, partial, masks);
            law_closed(p, entered, left, partial + covered, masks);
            lemma_right_open(p, candidates, partial, masks);
            law_closed(p, after_left, right, partial, masks.push(p.table[pivot as int]));
        }
    }
}

} // verus!
