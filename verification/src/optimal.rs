//! What the search finds when its calls do not run out: a set of recipes
//! that no set of ingredients within the budget can beat.

use crate::bounds::{footprint, BoundEntry};
use crate::forbidden::blocked;
use crate::laws::{
    law_progress, lemma_filter_member, lemma_footprint_holds, lemma_left_footprint,
};
use crate::search::{
    all_places, context_of, enter, explore_spec, fresh_run, is_covered, keeps,
    lemma_branches_shrink, lemma_filter_within, pivot_of, stays_left, stays_right, within,
    Problem, Run,
};
use vstd::prelude::*;

verus! {

/// The number of recipes of `table` that the ingredients `x` cover.
pub open spec fn coverage(table: Seq<Set<nat>>, x: Set<nat>) -> nat {
    all_places(table.len()).filter(is_covered(table, x)).len()
}

/// Whether the ingredients `x` can still be reached from a branch: they are
/// within the budget, hold what the branch has bought, and cover no recipe
/// that the branch has excluded.
pub open spec fn admissible(p: Problem, partial: Seq<usize>, masks: Seq<Set<nat>>, x: Set<nat>) -> bool {
    &&& x.finite()
    &&& x.len() <= p.max_size
    &&& footprint(p.table, partial).subset_of(x)
    &&& !blocked(masks, x)
}

/// Whether no ingredients within the budget cover more than `score` recipes.
pub open spec fn unbeaten(table: Seq<Set<nat>>, max_size: nat, score: nat) -> bool {
    forall|x: Set<nat>| x.finite() && x.len() <= max_size ==> #[trigger] coverage(table, x) <= score
}

/// Whether `x` covers the recipe at place `id`.
pub open spec fn covers(table: Seq<Set<nat>>, x: Set<nat>, id: usize) -> bool {
    id < table.len() && table[id as int].subset_of(x)
}

/// Whether a branch has lost no recipe: whatever ingredients can still be
/// reached from it, the recipes that they cover are committed or candidates.
pub open spec fn complete(p: Problem, candidates: Seq<usize>, partial: Seq<usize>, masks: Seq<Set<nat>>) -> bool {
    forall|x: Set<nat>, id: usize|
        #![trigger admissible(p, partial, masks, x), covers(p.table, x, id)]
        admissible(p, partial, masks, x) && covers(p.table, x, id) ==> partial.contains(id)
            || candidates.contains(id)
}

/// Whether no member of `a` is a member of `b`.
pub open spec fn apart(a: Seq<usize>, b: Seq<usize>) -> bool {
    forall|i: int, j: int| 0 <= i < a.len() && 0 <= j < b.len() ==> a[i] != b[j]
}

/// What holds of every branch that the search comes to: the candidates and
/// the committed recipes are recipes of the table, none occurs twice or on
/// both sides, and no recipe is lost.
pub open spec fn valid_branch(p: Problem, candidates: Seq<usize>, partial: Seq<usize>, masks: Seq<Set<nat>>) -> bool {
    &&& within(candidates, p.table.len())
    &&& within(partial, p.table.len())
    &&& candidates.no_duplicates()
    &&& partial.no_duplicates()
    &&& apart(candidates, partial)
    &&& complete(p, candidates, partial, masks)
}

/// Whether a bound is sound on a branch: whatever ingredients can still be
/// reached from the branch, they cover no more candidates than the bound says.
pub open spec fn sound_at(b: BoundEntry, p: Problem, candidates: Seq<usize>, partial: Seq<usize>, masks: Seq<Set<nat>>) -> bool {
    forall|x: Set<nat>|
        #[trigger] admissible(p, partial, masks, x) ==> candidates.filter(
            is_covered(p.table, x),
        ).len() <= b.bound(context_of(p, candidates, partial))
}

/// Whether every bound of the problem is sound on every branch that the
/// search can come to.
pub open spec fn sound_bounds(p: Problem) -> bool {
    forall|i: int, candidates: Seq<usize>, partial: Seq<usize>, masks: Seq<Set<nat>>|
        0 <= i < p.bounds.len() && #[trigger] valid_branch(p, candidates, partial, masks)
            ==> sound_at(#[trigger] p.bounds[i], p, candidates, partial, masks)
}

/// A filter lets nothing through twice that was there once.
pub proof fn lemma_filter_no_duplicates(s: Seq<usize>, pred: spec_fn(usize) -> bool)
    requires
        s.no_duplicates(),
    ensures
        s.filter(pred).no_duplicates(),
    decreases s.len(),
{
    if s.len() > 0 {
        let front = s.drop_last();
        assert(s =~= front.push(s.last()));
        front.lemma_filter_push(s.last(), pred);
        lemma_filter_no_duplicates(front, pred);
        let f = front.filter(pred);
        if pred(s.last()) {
            assert forall|i: int| 0 <= i < f.len() implies f[i] != s.last() by {
                let j = lemma_filter_member(front, pred, i);
                assert(s[j] == front[j]);
            }
        }
    }
}

/// A sequence without repeats whose members all occur in `a` or in `b` is no
/// longer than the two together.
pub proof fn lemma_count_bound(s: Seq<usize>, a: Seq<usize>, b: Seq<usize>)
    requires
        s.no_duplicates(),
        forall|i: int| 0 <= i < s.len() ==> a.contains(#[trigger] s[i]) || b.contains(s[i]),
    ensures
        s.len() <= a.len() + b.len(),
{
    let both = a + b;
    s.unique_seq_to_set();
    both.lemma_cardinality_of_set();
    assert(s.to_set().subset_of(both.to_set())) by {
        assert forall|v: usize| s.to_set().contains(v) implies both.to_set().contains(v) by {
            let i = choose|i: int| 0 <= i < s.len() && s[i] == v;
            assert(a.contains(s[i]) || b.contains(s[i]));
            if a.contains(v) {
                let j = choose|j: int| 0 <= j < a.len() && a[j] == v;
                assert(both[j] == v);
            } else {
                let j = choose|j: int| 0 <= j < b.len() && b[j] == v;
                assert(both[a.len() + j] == v);
            }
        }
    }
    vstd::set_lib::lemma_len_subset(s.to_set(), both.to_set());
}

/// The places of a table are its places, each once.
pub proof fn lemma_all_places(n: nat)
    requires
        n <= usize::MAX,
    ensures
        within(all_places(n), n),
        all_places(n).no_duplicates(),
        forall|id: usize| id < n ==> all_places(n).contains(id),
{
    assert forall|id: usize| id < n implies all_places(n).contains(id) by {
        assert(all_places(n)[id as int] == id);
    }
}

/// On a branch that has lost no recipe, ingredients that can still be
/// reached cover no more recipes than are committed and than they cover
/// among the candidates.
pub proof fn lemma_coverage_split(p: Problem, candidates: Seq<usize>, partial: Seq<usize>, masks: Seq<Set<nat>>, x: Set<nat>)
    requires
        p.table.len() <= usize::MAX,
        complete(p, candidates, partial, masks),
        admissible(p, partial, masks, x),
    ensures
        coverage(p.table, x) <= partial.len() + candidates.filter(is_covered(p.table, x)).len(),
{
    let covers_x = is_covered(p.table, x);
    let places = all_places(p.table.len());
    let s = places.filter(covers_x);
    let among = candidates.filter(covers_x);
    lemma_all_places(p.table.len());
    lemma_filter_no_duplicates(places, covers_x);
    lemma_filter_within(places, covers_x, p.table.len());
    assert forall|i: int| 0 <= i < s.len() implies partial.contains(#[trigger] s[i]) || among.contains(
        s[i],
    ) by {
        let j = lemma_filter_member(places, covers_x, i);
        assert(covers(p.table, x, s[i]));
        if !partial.contains(s[i]) {
            assert(candidates.contains(s[i]));
            let k = choose|k: int| 0 <= k < candidates.len() && candidates[k] == s[i];
            candidates.lemma_filter_contains(covers_x, k);
        }
    }
    lemma_count_bound(s, partial, among);
}

/// Including the pivot of a branch of the search gives a branch of the search.
pub proof fn lemma_left_valid(p: Problem, candidates: Seq<usize>, partial: Seq<usize>, masks: Seq<Set<nat>>)
    requires
        candidates.len() > 0,
        valid_branch(p, candidates, partial, masks),
    ensures
        ({
            let pivot = pivot_of(p, candidates);
            let ingredients = footprint(p.table, partial).union(p.table[pivot as int]);
            let covered = candidates.filter(is_covered(p.table, ingredients));
            let left = candidates.filter(stays_left(p.table, ingredients, p.max_size, masks));
            valid_branch(p, left, partial + covered, masks)
        }),
{
    let pivot = pivot_of(p, candidates);
    let bought = footprint(p.table, partial);
    let ingredients = bought.union(p.table[pivot as int]);
    let covers_all = is_covered(p.table, ingredients);
    let stays = stays_left(p.table, ingredients, p.max_size, masks);
    let covered = candidates.filter(covers_all);
    let left = candidates.filter(stays);
    let committed = partial + covered;
    lemma_left_footprint(p, candidates, partial);
    lemma_filter_within(candidates, covers_all, p.table.len());
    lemma_filter_within(candidates, stays, p.table.len());
    lemma_filter_no_duplicates(candidates, covers_all);
    lemma_filter_no_duplicates(candidates, stays);
    assert(within(committed, p.table.len())) by {
        assert forall|i: int| 0 <= i < committed.len() implies #[trigger] committed[i] < p.table.len() by {
            if i < partial.len() {
                assert(committed[i] == partial[i]);
            } else {
                assert(committed[i] == covered[i - partial.len()]);
            }
        }
    }
    assert forall|i: int, j: int| 0 <= i < partial.len() && 0 <= j < covered.len() implies partial[i]
        != covered[j] by {
        let k = lemma_filter_member(candidates, covers_all, j);
    }
    vstd::seq_lib::lemma_no_dup_in_concat(partial, covered);
    assert forall|i: int, j: int| 0 <= i < left.len() && 0 <= j < committed.len() implies left[i]
        != committed[j] by {
        let k = lemma_filter_member(candidates, stays, i);
        if j < partial.len() {
            assert(committed[j] == partial[j]);
        } else {
            assert(committed[j] == covered[j - partial.len()]);
            let m = lemma_filter_member(candidates, covers_all, j - partial.len());
        }
    }
    assert forall|x: Set<nat>, id: usize|
        #![trigger admissible(p, committed, masks, x), covers(p.table, x, id)]
        admissible(p, committed, masks, x) && covers(p.table, x, id) implies committed.contains(id)
            || left.contains(id) by {
        assert(admissible(p, partial, masks, x));
        assert(covers(p.table, x, id));
        if partial.contains(id) {
            let i = choose|i: int| 0 <= i < partial.len() && partial[i] == id;
            assert(committed[i] == id);
        } else {
            assert(candidates.contains(id));
            let k = choose|k: int| 0 <= k < candidates.len() && candidates[k] == id;
            if covers_all(id) {
                candidates.lemma_filter_contains(covers_all, k);
                let j = choose|j: int| 0 <= j < covered.len() && covered[j] == id;
                assert(committed[partial.len() + j] == id);
            } else {
                let joined = p.table[id as int].union(ingredients);
                assert(joined.subset_of(x));
                vstd::set_lib::lemma_len_subset(joined, x);
                if blocked(masks, joined) {
                    let i = choose|i: int| 0 <= i < masks.len() && (#[trigger] masks[i]).subset_of(joined);
                    assert(masks[i].subset_of(x));
                }
                assert(stays(id));
                candidates.lemma_filter_contains(stays, k);
            }
        }
    }
}

/// Excluding the pivot of a branch of the search gives a branch of the search.
pub proof fn lemma_right_valid(p: Problem, candidates: Seq<usize>, partial: Seq<usize>, masks: Seq<Set<nat>>)
    requires
        candidates.len() > 0,
        valid_branch(p, candidates, partial, masks),
    ensures
        ({
            let pivot = pivot_of(p, candidates);
            let right = candidates.filter(
                stays_right(p.table, pivot, footprint(p.table, partial)),
            );
            valid_branch(p, right, partial, masks.push(p.table[pivot as int]))
        }),
{
    let pivot = pivot_of(p, candidates);
    let bought = footprint(p.table, partial);
    let stays = stays_right(p.table, pivot, bought);
    let right = candidates.filter(stays);
    let excluded = masks.push(p.table[pivot as int]);
    lemma_filter_within(candidates, stays, p.table.len());
    lemma_filter_no_duplicates(candidates, stays);
    assert forall|i: int, j: int| 0 <= i < right.len() && 0 <= j < partial.len() implies right[i]
        != partial[j] by {
        let k = lemma_filter_member(candidates, stays, i);
    }
    assert forall|x: Set<nat>, id: usize|
        #![trigger admissible(p, partial, excluded, x), covers(p.table, x, id)]
        admissible(p, partial, excluded, x) && covers(p.table, x, id) implies partial.contains(id)
            || right.contains(id) by {
        assert(excluded[masks.len() as int] == p.table[pivot as int]);
        assert(!p.table[pivot as int].subset_of(x));
        if blocked(masks, x) {
            let i = choose|i: int| 0 <= i < masks.len() && (#[trigger] masks[i]).subset_of(x);
            assert(excluded[i] == masks[i]);
        }
        assert(admissible(p, partial, masks, x));
        assert(covers(p.table, x, id));
        if !partial.contains(id) {
            assert(candidates.contains(id));
            let k = choose|k: int| 0 <= k < candidates.len() && candidates[k] == id;
            assert(p.table[id as int].union(bought).subset_of(x));
            assert(stays(id));
            candidates.lemma_filter_contains(stays, k);
        }
    }
}

/// Where the search from a branch ends without having been refused an entry,
/// and its bounds are sound, the best solution is at least as large as the
/// number of recipes covered by any ingredients that can be reached from the
/// branch.
pub proof fn lemma_explore_complete(
    p: Problem,
    run: Run,
    candidates: Seq<usize>,
    partial: Seq<usize>,
    masks: Seq<Set<nat>>,
    x: Set<nat>,
)
    requires
        p.table.len() <= usize::MAX,
        valid_branch(p, candidates, partial, masks),
        sound_bounds(p),
        admissible(p, partial, masks, x),
        !explore_spec(p, run, candidates, partial, masks).exhausted,
    ensures
        coverage(p.table, x) <= explore_spec(p, run, candidates, partial, masks).score,
    decreases candidates.len(),
{
    if run.calls > 0 {
        let entered = enter(run, partial);
        lemma_coverage_split(p, candidates, partial, masks, x);
        let among = candidates.filter(is_covered(p.table, x));
        candidates.lemma_filter_len(is_covered(p.table, x));
        if candidates.len() == 0 {
        } else if !keeps(p, entered.score, candidates, partial) {
            let i = choose|i: int|
                0 <= i < p.bounds.len() && !((#[trigger] p.bounds[i]).bound(
                    context_of(p, candidates, partial),
                ) > entered.score - partial.len());
            assert(sound_at(p.bounds[i], p, candidates, partial, masks));
        } else {
            lemma_branches_shrink(p, candidates, partial, masks);
            let pivot = pivot_of(p, candidates);
            let bought = footprint(p.table, partial);
            let ingredients = bought.union(p.table[pivot as int]);
            let covered = candidates.filter(is_covered(p.table, ingredients));
            let left = candidates.filter(stays_left(p.table, ingredients, p.max_size, masks));
            let after_left = explore_spec(p, entered, left, partial + covered, masks);
            let right = candidates.filter(stays_right(p.table, pivot, bought));
            let excluded = masks.push(p.table[pivot as int]);
            law_progress(p, entered, left, partial + covered, masks);
            law_progress(p, after_left, right, partial, excluded);
            if p.table[pivot as int].subset_of(x) {
                lemma_left_valid(p, candidates, partial, masks);
                lemma_left_footprint(p, candidates, partial);
                assert(admissible(p, partial + covered, masks, x));
                lemma_explore_complete(p, entered, left, partial + covered, masks, x);
            } else {
                lemma_right_valid(p, candidates, partial, masks);
                assert(!blocked(excluded, x)) by {
                    if blocked(excluded, x) {
                        let i = choose|i: int| 0 <= i < excluded.len() && (#[trigger] excluded[i]).subset_of(x);
                        if i < masks.len() {
                            assert(masks[i].subset_of(x));
                        }
                    }
                }
                lemma_explore_complete(p, after_left, right, partial, excluded, x);
            }
        }
    }
}

/// The search starts from a branch of the search.
pub proof fn lemma_root_valid(p: Problem)
    requires
        p.table.len() <= usize::MAX,
    ensures
        valid_branch(p, all_places(p.table.len()), Seq::empty(), Seq::empty()),
{
    lemma_all_places(p.table.len());
}

/// The number of candidates is a sound bound.
pub proof fn lemma_total_sound(p: Problem, candidates: Seq<usize>, partial: Seq<usize>, masks: Seq<Set<nat>>)
    ensures
        sound_at(BoundEntry::Total, p, candidates, partial, masks),
{
    assert forall|x: Set<nat>| #[trigger] admissible(p, partial, masks, x) implies candidates.filter(
        is_covered(p.table, x),
    ).len() <= BoundEntry::Total.bound(context_of(p, candidates, partial)) by {
        candidates.lemma_filter_len(is_covered(p.table, x));
    }
}

/// From a branch of the search, with a best solution that names recipes of
/// the table, each once, the search ends with such a best solution.
pub proof fn lemma_best_valid(
    p: Problem,
    run: Run,
    candidates: Seq<usize>,
    partial: Seq<usize>,
    masks: Seq<Set<nat>>,
)
    requires
        valid_branch(p, candidates, partial, masks),
        within(run.best, p.table.len()),
        run.best.no_duplicates(),
    ensures
        within(explore_spec(p, run, candidates, partial, masks).best, p.table.len()),
        explore_spec(p, run, candidates, partial, masks).best.no_duplicates(),
    decreases candidates.len(),
{
    if run.calls > 0 {
        let entered = enter(run, partial);
        if candidates.len() > 0 && keeps(p, entered.score, candidates, partial) {
            lemma_branches_shrink(p, candidates, partial, masks);
            let pivot = pivot_of(p, candidates);
            let bought = footprint(p.table, partial);
            let ingredients = bought.union(p.table[pivot as int]);
            let covered = candidates.filter(is_covered(p.table, ingredients));
            let left = candidates.filter(stays_left(p.table, ingredients, p.max_size, masks));
            let after_left = explore_spec(p, entered, left, partial + covered, masks);
            let right = candidates.filter(stays_right(p.table, pivot, bought));
            lemma_left_valid(p, candidates, partial, masks);
            lemma_best_valid(p, entered, left, partial + covered, masks);
            lemma_right_valid(p, candidates, partial, masks);
            lemma_best_valid(p, after_left, right, partial, masks.push(p.table[pivot as int]));
        }
    }
}

/// A solution that names recipes of the table, each once, is no larger than
/// the number of recipes that its ingredients cover.
pub proof fn lemma_solution_covered(table: Seq<Set<nat>>, solution: Seq<usize>)
    requires
        table.len() <= usize::MAX,
        within(solution, table.len()),
        solution.no_duplicates(),
    ensures
        solution.len() <= coverage(table, footprint(table, solution)),
{
    let x = footprint(table, solution);
    let places = all_places(table.len());
    let s = places.filter(is_covered(table, x));
    lemma_all_places(table.len());
    assert forall|i: int| 0 <= i < solution.len() implies s.contains(#[trigger] solution[i]) by {
        lemma_footprint_holds(table, solution, i);
        assert(places[solution[i] as int] == solution[i]);
        places.lemma_filter_contains(is_covered(table, x), solution[i] as int);
    }
    lemma_count_bound(solution, s, Seq::<usize>::empty());
}

/// Where the search from every recipe a candidate ends without having been
/// refused an entry, and its bounds are sound, no ingredients within the
/// budget cover more recipes than the best solution has.
pub proof fn law_optimal(p: Problem, calls: int, x: Set<nat>)
    requires
        p.table.len() <= usize::MAX,
        sound_bounds(p),
        x.finite(),
        x.len() <= p.max_size,
    ensures
        ({
            let end = explore_spec(
                p,
                fresh_run(calls),
                all_places(p.table.len()),
                Seq::empty(),
                Seq::empty(),
            );
            !end.exhausted ==> coverage(p.table, x) <= end.score
        }),
{
    let none = Seq::<usize>::empty();
    let end = explore_spec(p, fresh_run(calls), all_places(p.table.len()), none, Seq::empty());
    lemma_root_valid(p);
    if !end.exhausted {
        assert(footprint(p.table, none) =~= Set::<nat>::empty());
        assert(admissible(p, none, Seq::empty(), x));
        lemma_explore_complete(
            p,
            fresh_run(calls),
            all_places(p.table.len()),
            none,
            Seq::empty(),
            x,
        );
    }
}

/// The best solution that the search ends with is reached by its own
/// ingredients: they cover at least as many recipes as it has.
pub proof fn law_achieved(p: Problem, calls: int)
    requires
        p.table.len() <= usize::MAX,
    ensures
        ({
            let end = explore_spec(
                p,
                fresh_run(calls),
                all_places(p.table.len()),
                Seq::empty(),
                Seq::empty(),
            );
            end.score <= coverage(p.table, footprint(p.table, end.best))
        }),
{
    let none = Seq::<usize>::empty();
    let start = fresh_run(calls);
    let end = explore_spec(p, start, all_places(p.table.len()), none, Seq::empty());
    lemma_root_valid(p);
    lemma_best_valid(p, start, all_places(p.table.len()), none, Seq::empty());
    law_progress(p, start, all_places(p.table.len()), none, Seq::empty());
    lemma_solution_covered(p.table, end.best);
}

} // verus!
