//! The branch-and-bound search and its builder.

use crate::bitset::BitSet;
use crate::bounds::{
    default_bounds, footprint, BoundContext, BoundEntry, BoundFunction, ContextModel,
};
use crate::forbidden::{blocked, ForbiddenChecker};
use crate::order::lemma_precedes_asymmetric;
use crate::store::{recipe_count, recipe_views, recipes_in, recipes_len, MAX_MASKS};
use crate::laws::{fits, law_feasible, law_progress, lemma_union_of_chosen};
use crate::closure::{closed, law_closed, open_branch};
use crate::laws::law_deterministic;
use crate::optimal::{
    coverage, covers, law_achieved, law_optimal, lemma_best_valid, lemma_root_valid,
    sound_bounds, unbeaten,
};
use crate::soundness::law_default_bounds_sound;
use crate::tables::{
    build_tables, cost_of, count_ingredients, holds, min_cover_of, small_recipes, sort_recipes,
    strictly_sorted, union_of, views, views_of,
};
use rustc_hash::FxHashSet;
use vstd::prelude::*;

verus! {

/// What a search is given and does not change: the recipes in the order of
/// sets, the ingredient budget, the two tables and the bounds.
pub struct Problem {
    pub table: Seq<Set<nat>>,
    pub max_size: nat,
    pub min_cover: Seq<usize>,
    pub cost: Seq<u128>,
    pub bounds: Seq<BoundEntry>,
}

/// What a search changes as it goes: the entries it may still make, the
/// entries it has made, the best partial solution seen with its size, and
/// whether an entry was refused for want of budget.
pub struct Run {
    pub calls: int,
    pub counter: int,
    pub score: nat,
    pub best: Seq<usize>,
    pub exhausted: bool,
}

/// Recipe number `i` of the solution `ids`.
pub open spec fn chosen(table: Seq<Set<nat>>, ids: Seq<usize>, i: int) -> Set<nat> {
    table[ids[i] as int]
}

/// Whether every member of `ids` is the place of a recipe among `n`.
pub open spec fn within(ids: Seq<usize>, n: nat) -> bool {
    forall|i: int| 0 <= i < ids.len() ==> #[trigger] ids[i] < n
}

/// The places `0, 1, .., n - 1`.
pub open spec fn all_places(n: nat) -> Seq<usize> {
    Seq::new(n, |i: int| i as usize)
}

/// The state as the bounds see it on a branch.
pub open spec fn context_of(p: Problem, candidates: Seq<usize>, partial: Seq<usize>) -> ContextModel {
    ContextModel {
        table: p.table,
        candidates,
        partial,
        partial_ingredients: footprint(p.table, partial),
        max_size: p.max_size,
        min_cover: p.min_cover,
        cost: p.cost,
    }
}

/// Whether a branch is worth exploring: every bound promises more recipes
/// than the best solution is ahead of the branch's partial solution.
pub open spec fn keeps(p: Problem, score: nat, candidates: Seq<usize>, partial: Seq<usize>) -> bool {
    forall|i: int|
        0 <= i < p.bounds.len() ==> (#[trigger] p.bounds[i]).bound(
            context_of(p, candidates, partial),
        ) > score - partial.len()
}

/// The position, among the first `n` candidates, of the first one of least cost.
pub open spec fn first_cheapest(cost: Seq<u128>, candidates: Seq<usize>, n: nat) -> int
    decreases n,
{
    if n <= 1 {
        0
    } else {
        let m = first_cheapest(cost, candidates, (n - 1) as nat);
        if cost[candidates[n - 1] as int] < cost[candidates[m] as int] {
            n - 1
        } else {
            m
        }
    }
}

/// The pivot of a branch: the candidate of least amortized cost, the first
/// such in the order of sets.
pub open spec fn pivot_of(p: Problem, candidates: Seq<usize>) -> usize {
    candidates[first_cheapest(p.cost, candidates, candidates.len())]
}

/// The candidates that `ingredients` covers.
pub open spec fn is_covered(table: Seq<Set<nat>>, ingredients: Set<nat>) -> spec_fn(usize) -> bool {
    |r: usize| table[r as int].subset_of(ingredients)
}

/// The candidates that stay when the pivot is included: not yet covered by
/// `ingredients`, within the budget together with them, and covering no
/// excluded recipe together with them.
pub open spec fn stays_left(
    table: Seq<Set<nat>>,
    ingredients: Set<nat>,
    max_size: nat,
    masks: Seq<Set<nat>>,
) -> spec_fn(usize) -> bool {
    |r: usize|
        !table[r as int].subset_of(ingredients) && table[r as int].union(ingredients).len()
            <= max_size && !blocked(masks, table[r as int].union(ingredients))
}

/// The candidates that stay when the pivot is excluded: not the pivot, and
/// not covering the pivot together with `ingredients`.
pub open spec fn stays_right(table: Seq<Set<nat>>, pivot: usize, ingredients: Set<nat>) -> spec_fn(
    usize,
) -> bool {
    |r: usize| r != pivot && !table[pivot as int].subset_of(table[r as int].union(ingredients))
}

/// The first cheapest candidate is one of the candidates.
pub proof fn lemma_first_cheapest(cost: Seq<u128>, candidates: Seq<usize>, n: nat)
    requires
        n >= 1,
    ensures
        0 <= first_cheapest(cost, candidates, n) < n,
    decreases n,
{
    if n > 1 {
        lemma_first_cheapest(cost, candidates, (n - 1) as nat);
    }
}

/// A filter that turns one member away leaves fewer members than there were.
pub proof fn lemma_filter_drops(s: Seq<usize>, pred: spec_fn(usize) -> bool, i: int)
    requires
        0 <= i < s.len(),
        !pred(s[i]),
    ensures
        s.filter(pred).len() < s.len(),
    decreases s.len(),
{
    let front = s.drop_last();
    assert(s =~= front.push(s.last()));
    front.lemma_filter_push(s.last(), pred);
    front.lemma_filter_len(pred);
    if i < s.len() - 1 {
        lemma_filter_drops(front, pred, i);
    }
}

/// Including or excluding the pivot leaves fewer candidates.
pub proof fn lemma_branches_shrink(p: Problem, candidates: Seq<usize>, partial: Seq<usize>, masks: Seq<Set<nat>>)
    requires
        candidates.len() > 0,
    ensures
        candidates.filter(
            stays_left(
                p.table,
                footprint(p.table, partial).union(p.table[pivot_of(p, candidates) as int]),
                p.max_size,
                masks,
            ),
        ).len() < candidates.len(),
        candidates.filter(
            stays_right(p.table, pivot_of(p, candidates), footprint(p.table, partial)),
        ).len() < candidates.len(),
{
    lemma_first_cheapest(p.cost, candidates, candidates.len());
    let at = first_cheapest(p.cost, candidates, candidates.len());
    let pivot = pivot_of(p, candidates);
    let ingredients = footprint(p.table, partial).union(p.table[pivot as int]);
    lemma_filter_drops(candidates, stays_left(p.table, ingredients, p.max_size, masks), at);
    lemma_filter_drops(candidates, stays_right(p.table, pivot, footprint(p.table, partial)), at);
}

/// The search from one branch on, as a function of what it is given.
///
/// An entry is refused where no call is left. Otherwise the entry is counted,
/// the partial solution replaces the best one where it is larger, and the
/// branch ends there where it has no candidate or some bound does not promise
/// more than the best solution is ahead. Else the pivot is included, with all
/// the candidates that its ingredients cover besides, and then excluded.
pub open spec fn explore_spec(
    p: Problem,
    run: Run,
    candidates: Seq<usize>,
    partial: Seq<usize>,
    masks: Seq<Set<nat>>,
) -> Run
    decreases candidates.len(),
{
    if run.calls <= 0 {
        Run { exhausted: true, ..run }
    } else {
        let entered = enter(run, partial);
        if candidates.len() == 0 || !keeps(p, entered.score, candidates, partial) {
            entered
        } else {
            proof {
                lemma_branches_shrink(p, candidates, partial, masks);
            }
            let pivot = pivot_of(p, candidates);
            let bought = footprint(p.table, partial);
            let ingredients = bought.union(p.table[pivot as int]);
            let covered = candidates.filter(is_covered(p.table, ingredients));
            let left = candidates.filter(stays_left(p.table, ingredients, p.max_size, masks));
            let after_left = explore_spec(p, entered, left, partial + covered, masks);
            let right = candidates.filter(stays_right(p.table, pivot, bought));
            explore_spec(p, after_left, right, partial, masks.push(p.table[pivot as int]))
        }
    }
}

/// The run after an entry is counted and the partial solution is held
/// against the best one.
pub open spec fn enter(run: Run, partial: Seq<usize>) -> Run {
    Run {
        calls: run.calls - 1,
        counter: run.counter + 1,
        score: if partial.len() > run.score {
            partial.len()
        } else {
            run.score
        },
        best: if partial.len() > run.score {
            partial
        } else {
            run.best
        },
        exhausted: run.exhausted,
    }
}

/// The run that a fresh engine with `max_calls` entries starts from.
pub open spec fn fresh_run(max_calls: int) -> Run {
    Run { calls: max_calls, counter: 0, score: 0, best: Seq::empty(), exhausted: false }
}

/// A branch-and-bound search for the largest set of recipes whose ingredients
/// fit the budget.
pub struct BranchBound {
    calls: i32,
    max_size: usize,
    highest_score: usize,
    highest: Vec<usize>,
    counter: u32,
    min_cover: Vec<usize>,
    min_amortized_cost: Vec<u128>,
    initial: bool,
    exhausted: bool,
    all_cocktails: Vec<BitSet>,
    bound_functions: Vec<BoundEntry>,
}

impl BranchBound {
    /// What the search is given.
    pub closed spec fn problem(&self) -> Problem {
        Problem {
            table: views(self.all_cocktails@),
            max_size: self.max_size as nat,
            min_cover: self.min_cover@,
            cost: self.min_amortized_cost@,
            bounds: self.bound_functions@,
        }
    }

    /// Where the search stands.
    pub closed spec fn run(&self) -> Run {
        Run {
            calls: self.calls as int,
            counter: self.counter as int,
            score: self.highest_score as nat,
            best: self.highest@,
            exhausted: self.exhausted,
        }
    }

    /// Whether a search has been made with this engine.
    pub closed spec fn spent(&self) -> bool {
        !self.initial
    }

    /// A fresh engine is not spent.
    pub proof fn lemma_fresh_not_spent(self)
        requires
            self.is_fresh(),
        ensures
            !self.spent(),
    {
    }

    /// Whether the engine is as it was built.
    pub closed spec fn is_fresh(&self) -> bool {
        &&& self.initial
        &&& self.counter == 0
        &&& self.highest_score == 0
        &&& self.highest@.len() == 0
        &&& !self.exhausted
    }

    /// The tables cover the recipes, the best solution names recipes and has
    /// the size that is recorded for it, and the entry count has room for the
    /// entries that may still be made.
    pub closed spec fn wf(&self) -> bool {
        &&& self.min_cover@.len() == self.all_cocktails@.len()
        &&& self.min_amortized_cost@.len() == self.all_cocktails@.len()
        &&& within(self.highest@, self.all_cocktails@.len())
        &&& self.highest_score == self.highest@.len()
        &&& self.counter + self.calls <= u32::MAX
    }

    /// An engine with the three default bounds, good for `max_calls` entries
    /// and solutions of up to `max_size` ingredients.
    #[must_use]
    pub fn new(max_calls: i32, max_size: usize) -> (engine: BranchBound)
        requires
            max_size > 0,
        ensures
            engine.is_fresh(),
            engine.wf(),
            engine.run() == fresh_run(max_calls as int),
            engine.problem().max_size == max_size,
            engine.problem().bounds == default_bounds(),
    {
        BranchBoundBuilder::new(max_calls, max_size).build()
    }

    /// The number of entries made so far.
    pub fn counter(&self) -> (n: u32)
        ensures
            n == self.run().counter,
    {
        self.counter
    }

    /// The number of entries that may still be made.
    pub fn calls(&self) -> (n: i32)
        ensures
            n == self.run().calls,
    {
        self.calls
    }

    /// The size of the best solution found so far.
    pub fn highest_score(&self) -> (n: usize)
        ensures
            n == self.run().score,
    {
        self.highest_score
    }

    /// The ingredient budget.
    pub fn max_size(&self) -> (n: usize)
        ensures
            n == self.problem().max_size,
    {
        self.max_size
    }

    /// Whether no search has been made with this engine.
    pub fn initial(&self) -> (b: bool)
        ensures
            b == !self.spent(),
    {
        self.initial
    }

    /// Whether the search was refused an entry because no call was left.
    pub fn budget_exhausted(&self) -> (b: bool)
        ensures
            b == self.run().exhausted,
    {
        self.exhausted
    }

    /// The number of bounds that the search prunes with.
    pub fn bound_count(&self) -> (n: usize)
        ensures
            n == self.problem().bounds.len(),
    {
        self.bound_functions.len()
    }

    /// The best solution found so far.
    pub fn highest(&self) -> (best: Vec<BitSet>)
        requires
            self.wf(),
        ensures
            best@.len() == self.run().best.len(),
            forall|i: int|
                0 <= i < best@.len() ==> (#[trigger] best@[i])@ == chosen(
                    self.problem().table,
                    self.run().best,
                    i,
                ),
    {
        let ghost table = views(self.all_cocktails@);
        let mut best: Vec<BitSet> = Vec::new();
        let mut i: usize = 0;
        while i < self.highest.len()
            invariant
                i <= self.highest@.len(),
                self.wf(),
                table == views(self.all_cocktails@),
                best@.len() == i,
                forall|j: int|
                    0 <= j < i ==> (#[trigger] best@[j])@ == table[self.highest@[j] as int],
            decreases self.highest@.len() - i,
        {
            let id = self.highest[i];
            best.push(self.all_cocktails[id].clone());
            proof {
                assert(table[id as int] == self.all_cocktails@[id as int]@);
            }
            i += 1;
        }
        best
    }

    /// Searches for the largest set of the recipes in `candidates` whose
    /// ingredients, taken together, are no more than the budget, and returns
    /// the best set found within the call budget, in the order in which
    /// its recipes were committed.
    ///
    /// The recipes are put in the order of sets, each once; the tables are
    /// counted over them; the search then runs from the branch with every
    /// recipe a candidate, none committed and none excluded.
    #[inline(always)]
    pub fn search(
        &mut self,
        candidates: &mut FxHashSet<BitSet>,
        partial: &mut FxHashSet<BitSet>,
        forbidden: &mut Option<ForbiddenChecker>,
    ) -> (best: Vec<BitSet>)
        requires
            old(self).is_fresh(),
            recipe_views(*old(partial)) == Set::<Set<nat>>::empty(),
            recipe_views(*old(candidates)).len() <= MAX_MASKS,
        ensures
            *final(candidates) == *old(candidates),
            *final(partial) == *old(partial),
            *final(forbidden) matches Some(excluded) && excluded@.len() == 0,
            search_of(*old(self), *final(self), recipe_views(*old(candidates)), best@),
    {
        // first run-through, so put the recipes in order and fill the tables
        let ghost given = recipe_views(*candidates);
        let raw = recipes_in(candidates);
        let table = sort_recipes(raw.as_slice());
        let cardinality = count_ingredients(&table);
        let (min_cover, min_amortized_cost) = build_tables(&table, &cardinality);
        let ghost tv = views(table@);
        proof {
            assert forall|r: Set<nat>| holds(tv, r) <==> given.contains(r) by {
                if holds(views_of(raw@), r) {
                    let i = choose|i: int|
                        0 <= i < views_of(raw@).len() && #[trigger] views_of(raw@)[i] == r;
                    assert(raw@[i]@ == r);
                }
                if given.contains(r) {
                    let i = choose|i: int| 0 <= i < raw@.len() && raw@[i]@ == r;
                    assert(views_of(raw@)[i] == r);
                }
            }
            lemma_sorted_len(tv, given);
        }
        self.all_cocktails = table;
        self.min_cover = min_cover;
        self.min_amortized_cost = min_amortized_cost;
        self.initial = false;
        let count = self.all_cocktails.len();
        let mut places: Vec<usize> = Vec::new();
        let mut i: usize = 0;
        while i < count
            invariant
                i <= count,
                places@ == all_places(i as nat),
            decreases count - i,
        {
            places.push(i);
            proof {
                assert(places@ =~= all_places((i + 1) as nat));
            }
            i += 1;
        }
        let none: Vec<usize> = Vec::new();
        let root = ForbiddenChecker::new();
        proof {
            assert(none@ =~= Seq::<usize>::empty());
        }
        let ghost start = self.run();
        // begin
        self.explore(&places, &none, &root);
        *forbidden = Some(root);
        let best = self.highest();
        proof {
            let p = self.problem();
            law_progress(p, start, places@, none@, root@);
            lemma_union_of_chosen(p.table, self.run().best, views(best@));
            if each_fits(given, p.max_size) {
                assert(footprint(p.table, none@) =~= Set::<nat>::empty());
                assert forall|i: int| 0 <= i < places@.len() implies p.table[#[trigger] places@[i] as int].union(
                    footprint(p.table, none@),
                ).len() <= p.max_size by {
                    let r = p.table[places@[i] as int];
                    assert(r.union(footprint(p.table, none@)) =~= r);
                    assert(holds(p.table, r));
                }
                assert(fits(p, places@, none@));
                law_feasible(p, start, places@, none@, root@);
            }
            assert(start.best =~= Seq::<usize>::empty());
            assert(start == fresh_run(start.calls));
            assert(none@ =~= Seq::<usize>::empty());
            assert(root@ =~= Seq::<Set<nat>>::empty());
            law_achieved(p, start.calls);
            let ids = self.run().best;
            lemma_root_valid(p);
            lemma_best_valid(p, start, places@, none@, root@);
            assert forall|i: int| 0 <= i < best@.len() implies given.contains(
                #[trigger] best@[i]@,
            ) by {
                assert(best@[i]@ == chosen(p.table, ids, i));
                assert(holds(p.table, p.table[ids[i] as int]));
            }
            assert forall|i: int, j: int| 0 <= i < j < best@.len() implies (#[trigger] best@[i])@
                != (#[trigger] best@[j])@ by {
                assert(best@[i]@ == chosen(p.table, ids, i));
                assert(best@[j]@ == chosen(p.table, ids, j));
                if ids[i] < ids[j] {
                    lemma_precedes_asymmetric(p.table[ids[i] as int], p.table[ids[j] as int]);
                } else {
                    lemma_precedes_asymmetric(p.table[ids[j] as int], p.table[ids[i] as int]);
                }
            }
            if each_fits(given, p.max_size) && !given.contains(Set::empty()) {
                assert forall|i: int| 0 <= i < places@.len() implies !p.table[#[trigger] places@[i] as int].subset_of(
                    footprint(p.table, none@),
                ) && !blocked(
                    root@,
                    p.table[places@[i] as int].union(footprint(p.table, none@)),
                ) by {
                    let r = p.table[places@[i] as int];
                    assert(holds(p.table, r));
                    if r.subset_of(footprint(p.table, none@)) {
                        assert(r =~= Set::<nat>::empty());
                    }
                }
                assert(open_branch(p, places@, none@, root@));
                assert(closed(p.table, start.best)) by {
                    assert forall|id: usize| #[trigger]
                        covers(p.table, footprint(p.table, start.best), id) implies start.best.contains(
                        id,
                    ) by {
                        let r = p.table[id as int];
                        assert(holds(p.table, r));
                        assert(r =~= Set::<nat>::empty());
                    }
                }
                law_closed(p, start, places@, none@, root@);
                assert forall|r: Set<nat>|
                    given.contains(r) && r.subset_of(union_of(views(best@))) implies #[trigger] holds(
                    views(best@),
                    r,
                ) by {
                    assert(holds(p.table, r));
                    let id = choose|id: int| 0 <= id < p.table.len() && #[trigger] p.table[id] == r;
                    assert(covers(p.table, footprint(p.table, ids), id as usize));
                    assert(ids.contains(id as usize));
                    let i = choose|i: int| 0 <= i < ids.len() && ids[i] == id as usize;
                    assert(best@[i]@ == chosen(p.table, ids, i));
                    assert(views(best@)[i] == r);
                }
            }
            if !self.run().exhausted && (p.bounds == default_bounds() || sound_bounds(p)) {
                if p.bounds == default_bounds() {
                    law_default_bounds_sound(p);
                }
                assert forall|x: Set<nat>| x.finite() && x.len() <= p.max_size implies #[trigger] coverage(
                    p.table,
                    x,
                ) <= best@.len() by {
                    law_optimal(p, start.calls, x);
                }
            }
        }
        best
    }

    /// Searches as `search` does where it can: with a fresh engine, nothing
    /// committed, and no more recipes than can be excluded on one branch.
    /// Else it returns `None` and changes nothing.
    pub fn try_search(
        &mut self,
        candidates: &mut FxHashSet<BitSet>,
        partial: &mut FxHashSet<BitSet>,
        forbidden: &mut Option<ForbiddenChecker>,
    ) -> (r: Option<Vec<BitSet>>)
        ensures
            *final(candidates) == *old(candidates),
            *final(partial) == *old(partial),
            r is Some <==> old(self).is_fresh() && recipe_count(*old(partial)) == 0
                && recipe_count(*old(candidates)) <= MAX_MASKS,
            r is None ==> *final(self) == *old(self) && *final(forbidden) == *old(forbidden),
            r matches Some(best) ==> {
                &&& *final(forbidden) matches Some(excluded) && excluded@.len() == 0
                &&& search_of(*old(self), *final(self), recipe_views(*old(candidates)), best@)
            },
    {
        let fresh = self.initial && self.counter == 0 && self.highest_score == 0
            && self.highest.len() == 0 && !self.exhausted;
        if !fresh || recipes_len(partial) != 0 || recipes_len(candidates) > MAX_MASKS {
            return None;
        }
        Some(self.search(candidates, partial, forbidden))
    }

    /// The ingredients of the recipes `ids` taken together.
    fn footprint_of(&self, ids: &Vec<usize>) -> (r: BitSet)
        requires
            within(ids@, self.all_cocktails@.len()),
        ensures
            r@ == footprint(views(self.all_cocktails@), ids@),
    {
        let ghost table = views(self.all_cocktails@);
        let mut partial_ingredients = BitSet::new();
        let mut i: usize = 0;
        while i < ids.len()
            invariant
                i <= ids@.len(),
                within(ids@, self.all_cocktails@.len()),
                table == views(self.all_cocktails@),
                partial_ingredients@ == footprint(table, ids@.take(i as int)),
            decreases ids@.len() - i,
        {
            let id = ids[i];
            proof {
                let after = ids@.take(i + 1);
                assert(after.drop_last() =~= ids@.take(i as int));
                assert(after.last() == id);
                assert(table[id as int] == self.all_cocktails@[id as int]@);
            }
            partial_ingredients.union_assign(&self.all_cocktails[id]);
            i += 1;
        }
        proof {
            assert(ids@.take(ids@.len() as int) =~= ids@);
        }
        partial_ingredients
    }

    /// Whether every bound promises more than the best solution is ahead of
    /// the partial solution.
    fn keep_exploring(
        &self,
        candidates: &Vec<usize>,
        partial: &Vec<usize>,
        partial_ingredients: &BitSet,
    ) -> (keep: bool)
        requires
            self.wf(),
            within(candidates@, self.all_cocktails@.len()),
            within(partial@, self.all_cocktails@.len()),
            partial_ingredients@ == footprint(views(self.all_cocktails@), partial@),
            self.highest_score >= partial@.len(),
        ensures
            keep == keeps(self.problem(), self.highest_score as nat, candidates@, partial@),
    {
        let threshold = self.highest_score - partial.len();
        let context = BoundContext {
            recipes: &self.all_cocktails,
            candidates,
            partial,
            partial_ingredients,
            max_size: self.max_size,
            min_cover: &self.min_cover,
            min_amortized_cost: &self.min_amortized_cost,
        };
        assert(context@ == context_of(self.problem(), candidates@, partial@));
        let mut i: usize = 0;
        while i < self.bound_functions.len()
            invariant
                i <= self.bound_functions@.len(),
                context@.wf(),
                context@ == context_of(self.problem(), candidates@, partial@),
                threshold == self.highest_score - partial@.len(),
                forall|j: int|
                    0 <= j < i ==> (#[trigger] self.bound_functions@[j]).bound(context@)
                        > threshold,
            decreases self.bound_functions@.len() - i,
        {
            let bound = self.bound_functions[i].compute(&context);
            if bound <= threshold {
                proof {
                    let p = self.problem();
                    assert(p.bounds[i as int].bound(context_of(p, candidates@, partial@))
                        <= threshold);
                }
                return false;
            }
            i += 1;
        }
        true
    }

    /// The position of the pivot among the candidates.
    fn select_pivot(&self, candidates: &Vec<usize>) -> (at: usize)
        requires
            self.wf(),
            candidates@.len() > 0,
            within(candidates@, self.all_cocktails@.len()),
        ensures
            at == first_cheapest(self.min_amortized_cost@, candidates@, candidates@.len()),
            at < candidates@.len(),
    {
        let mut at: usize = 0;
        let mut i: usize = 1;
        while i < candidates.len()
            invariant
                1 <= i <= candidates@.len(),
                at < i,
                self.wf(),
                within(candidates@, self.all_cocktails@.len()),
                at == first_cheapest(self.min_amortized_cost@, candidates@, i as nat),
            decreases candidates@.len() - i,
        {
            if self.min_amortized_cost[candidates[i]] < self.min_amortized_cost[candidates[at]] {
                at = i;
            }
            i += 1;
        }
        at
    }

    /// The candidates that `ingredients` covers, and the candidates that stay
    /// when those are committed.
    fn split_left(
        &self,
        candidates: &Vec<usize>,
        ingredients: &BitSet,
        forbidden: &ForbiddenChecker,
    ) -> (r: (Vec<usize>, Vec<usize>))
        requires
            within(candidates@, self.all_cocktails@.len()),
        ensures
            r.0@ == candidates@.filter(is_covered(views(self.all_cocktails@), ingredients@)),
            r.1@ == candidates@.filter(
                stays_left(
                    views(self.all_cocktails@),
                    ingredients@,
                    self.max_size as nat,
                    forbidden@,
                ),
            ),
    {
        let ghost table = views(self.all_cocktails@);
        let ghost covers = is_covered(table, ingredients@);
        let ghost stays = stays_left(table, ingredients@, self.max_size as nat, forbidden@);
        let mut covered_candidates: Vec<usize> = Vec::new();
        let mut permitted_candidates: Vec<usize> = Vec::new();
        let mut i: usize = 0;
        while i < candidates.len()
            invariant
                i <= candidates@.len(),
                within(candidates@, self.all_cocktails@.len()),
                table == views(self.all_cocktails@),
                covers == is_covered(table, ingredients@),
                stays == stays_left(table, ingredients@, self.max_size as nat, forbidden@),
                covered_candidates@ == candidates@.take(i as int).filter(covers),
                permitted_candidates@ == candidates@.take(i as int).filter(stays),
            decreases candidates@.len() - i,
        {
            let id = candidates[i];
            let cocktail = &self.all_cocktails[id];
            proof {
                let before = candidates@.take(i as int);
                assert(candidates@.take(i + 1) =~= before.push(id));
                before.lemma_filter_push(id, covers);
                before.lemma_filter_push(id, stays);
                assert(table[id as int] == cocktail@);
            }
            if cocktail.is_subset(ingredients) {
                covered_candidates.push(id);
            } else {
                let extended_ingredients = cocktail.union(ingredients);
                if extended_ingredients.len() <= self.max_size as u64 {
                    let forbidden_cover = forbidden.is_forbidden(&extended_ingredients);
                    if !forbidden_cover {
                        permitted_candidates.push(id);
                    }
                }
            }
            i += 1;
        }
        proof {
            assert(candidates@.take(candidates@.len() as int) =~= candidates@);
        }
        (covered_candidates, permitted_candidates)
    }

    /// The candidates that stay when the pivot is excluded.
    fn right_candidates(
        &self,
        candidates: &Vec<usize>,
        best: usize,
        partial_ingredients: &BitSet,
    ) -> (remaining: Vec<usize>)
        requires
            within(candidates@, self.all_cocktails@.len()),
            best < self.all_cocktails@.len(),
        ensures
            remaining@ == candidates@.filter(
                stays_right(views(self.all_cocktails@), best, partial_ingredients@),
            ),
    {
        let ghost table = views(self.all_cocktails@);
        let ghost stays = stays_right(table, best, partial_ingredients@);
        let mut remaining: Vec<usize> = Vec::new();
        let mut i: usize = 0;
        while i < candidates.len()
            invariant
                i <= candidates@.len(),
                within(candidates@, self.all_cocktails@.len()),
                best < self.all_cocktails@.len(),
                table == views(self.all_cocktails@),
                stays == stays_right(table, best, partial_ingredients@),
                remaining@ == candidates@.take(i as int).filter(stays),
            decreases candidates@.len() - i,
        {
            let id = candidates[i];
            proof {
                let before = candidates@.take(i as int);
                assert(candidates@.take(i + 1) =~= before.push(id));
                before.lemma_filter_push(id, stays);
                assert(table[id as int] == self.all_cocktails@[id as int]@);
                assert(table[best as int] == self.all_cocktails@[best as int]@);
            }
            if id != best {
                let test = self.all_cocktails[id].union(partial_ingredients);
                if !self.all_cocktails[best].is_subset(&test) {
                    remaining.push(id);
                }
            }
            i += 1;
        }
        proof {
            assert(candidates@.take(candidates@.len() as int) =~= candidates@);
        }
        remaining
    }

    /// The partial solution with the covered candidates added.
    fn extended(partial: &Vec<usize>, covered: &Vec<usize>) -> (r: Vec<usize>)
        ensures
            r@ == partial@ + covered@,
    {
        let mut new_partial = partial.clone();
        let mut i: usize = 0;
        while i < covered.len()
            invariant
                i <= covered@.len(),
                new_partial@ == partial@ + covered@.take(i as int),
            decreases covered@.len() - i,
        {
            new_partial.push(covered[i]);
            proof {
                assert(covered@.take(i + 1) =~= covered@.take(i as int).push(covered@[i as int]));
                assert(new_partial@ =~= partial@ + covered@.take(i + 1));
            }
            i += 1;
        }
        proof {
            assert(covered@.take(covered@.len() as int) =~= covered@);
        }
        new_partial
    }

    /// Searches one branch: the candidates that can still be added, the
    /// recipes committed so far, and the recipes excluded so far.
    fn explore(
        &mut self,
        candidates: &Vec<usize>,
        partial: &Vec<usize>,
        forbidden: &ForbiddenChecker,
    )
        requires
            old(self).wf(),
            within(candidates@, old(self).all_cocktails@.len()),
            within(partial@, old(self).all_cocktails@.len()),
            forbidden@.len() + candidates@.len() <= MAX_MASKS,
        ensures
            final(self).wf(),
            final(self).problem() == old(self).problem(),
            final(self).initial == old(self).initial,
            final(self).all_cocktails == old(self).all_cocktails,
            final(self).run() == explore_spec(
                old(self).problem(),
                old(self).run(),
                candidates@,
                partial@,
                forbidden@,
            ),
        decreases candidates@.len(),
    {
        if self.calls <= 0 {
            self.exhausted = true;
            return ;
        }
        self.calls -= 1;
        self.counter += 1;
        let score = partial.len();
        if score > self.highest_score {
            self.highest = partial.clone();
            self.highest_score = score;
        }
        proof {
            assert(self.run() == enter(old(self).run(), partial@));
        }
        if candidates.len() == 0 {
            return ;
        }
        let partial_ingredients = self.footprint_of(partial);
        let keep_exploring = self.keep_exploring(candidates, partial, &partial_ingredients);
        if keep_exploring {
            let at = self.select_pivot(candidates);
            let best = candidates[at];
            let new_partial_ingredients = partial_ingredients.union(&self.all_cocktails[best]);
            proof {
                assert(views(self.all_cocktails@)[best as int] == self.all_cocktails@[best as int]@);
                lemma_branches_shrink(self.problem(), candidates@, partial@, forbidden@);
            }
            let (covered_candidates, permitted_candidates) = self.split_left(
                candidates,
                &new_partial_ingredients,
                forbidden,
            );
            let new_partial = Self::extended(partial, &covered_candidates);
            proof {
                lemma_filter_within(
                    candidates@,
                    is_covered(views(self.all_cocktails@), new_partial_ingredients@),
                    self.all_cocktails@.len(),
                );
                lemma_filter_within(
                    candidates@,
                    stays_left(
                        views(self.all_cocktails@),
                        new_partial_ingredients@,
                        self.max_size as nat,
                        forbidden@,
                    ),
                    self.all_cocktails@.len(),
                );
                lemma_filter_within(
                    candidates@,
                    stays_right(views(self.all_cocktails@), best, partial_ingredients@),
                    self.all_cocktails@.len(),
                );
            }
            self.explore(&permitted_candidates, &new_partial, forbidden);
            let remaining = self.right_candidates(candidates, best, &partial_ingredients);
            let new_forbidden = ForbiddenChecker::with_base(
                forbidden,
                self.all_cocktails[best].clone(),
            );
            self.explore(&remaining, partial, &new_forbidden);
        }
    }
}

/// What a search leaves behind: the engine `after` and the solution `best`
/// that a search over the recipes `given` makes of the fresh engine `before`.
///
/// The problem is the one that the recipes make, with the budget and the
/// bounds of the engine; the run is the one that the search makes from the
/// branch with every recipe a candidate; `best` is the best solution of that
/// run, each of its recipes a given one and none twice. The search made no
/// more entries than it had calls for, and none where it had none. Where no
/// recipe alone exceeds the budget, the ingredients of `best` are within the
/// budget, and where each recipe has an ingredient besides, `best` holds
/// every given recipe that its ingredients cover. Where no entry was refused
/// and the bounds are the default ones, or sound ones, no ingredients within
/// the budget cover more recipes than `best` has.
pub open spec fn search_of(
    before: BranchBound,
    after: BranchBound,
    given: Set<Set<nat>>,
    best: Seq<BitSet>,
) -> bool {
    &&& after.wf()
    &&& after.spent()
    &&& after.problem().max_size == before.problem().max_size
    &&& after.problem().bounds == before.problem().bounds
    &&& prepared(after.problem(), given)
    &&& small_recipes(after.problem().table)
    &&& after.run() == explore_spec(
        after.problem(),
        before.run(),
        all_places(after.problem().table.len()),
        Seq::empty(),
        Seq::empty(),
    )
    &&& best.len() == after.run().best.len()
    &&& forall|i: int|
        0 <= i < best.len() ==> (#[trigger] best[i])@ == chosen(
            after.problem().table,
            after.run().best,
            i,
        )
    &&& best.len() == after.run().score
    &&& forall|i: int| 0 <= i < best.len() ==> given.contains(#[trigger] best[i]@)
    &&& forall|i: int, j: int|
        0 <= i < j < best.len() ==> (#[trigger] best[i])@ != (#[trigger] best[j])@
    &&& before.run() == fresh_run(before.run().calls)
    &&& after.run().score >= before.run().score
    &&& after.run().calls >= if before.run().calls < 0 {
        before.run().calls
    } else {
        0
    }
    &&& before.run().calls <= 0 ==> best.len() == 0 && after.run().counter == 0
    &&& after.run().counter <= if before.run().calls > 0 {
        before.run().calls
    } else {
        0
    }
    &&& after.run().counter + after.run().calls == before.run().calls
    &&& each_fits(given, before.problem().max_size) ==> union_of(views(best)).len()
        <= before.problem().max_size
    &&& best.len() <= coverage(after.problem().table, union_of(views(best)))
    &&& each_fits(given, before.problem().max_size) && !given.contains(Set::empty())
        ==> forall|r: Set<nat>|
        given.contains(r) && r.subset_of(union_of(views(best))) ==> #[trigger] holds(
            views(best),
            r,
        )
    &&& !after.run().exhausted && (after.problem().bounds == default_bounds() || sound_bounds(
        after.problem(),
    )) ==> unbeaten(after.problem().table, after.problem().max_size, best.len())
}

/// Two searches over the same recipes, by engines with the same budgets and
/// the same bounds, end the same and find the same solution.
pub proof fn law_search_deterministic(
    before: BranchBound,
    after: BranchBound,
    best: Seq<BitSet>,
    other_before: BranchBound,
    other_after: BranchBound,
    other_best: Seq<BitSet>,
    given: Set<Set<nat>>,
)
    requires
        search_of(before, after, given, best),
        search_of(other_before, other_after, given, other_best),
        before.run().calls == other_before.run().calls,
        before.problem().max_size == other_before.problem().max_size,
        before.problem().bounds == other_before.problem().bounds,
    ensures
        after.problem() == other_after.problem(),
        after.run() == other_after.run(),
        views(best) == views(other_best),
{
    let n = after.problem().table.len();
    law_deterministic(
        after.problem(),
        other_after.problem(),
        given,
        before.run(),
        all_places(n),
        Seq::empty(),
        Seq::empty(),
    );
    assert forall|i: int| 0 <= i < best.len() implies views(best)[i] == views(other_best)[i] by {
        assert(best[i]@ == chosen(after.problem().table, after.run().best, i));
        assert(other_best[i]@ == chosen(after.problem().table, after.run().best, i));
    }
    assert(views(best) =~= views(other_best));
}

/// Whether each of the recipes has no more than `max_size` ingredients.
pub open spec fn each_fits(given: Set<Set<nat>>, max_size: nat) -> bool {
    forall|r: Set<nat>| given.contains(r) ==> r.len() <= max_size
}

/// Whether a problem is the one that a set of recipes makes: its table holds
/// those recipes, each once, in the order of sets, and the two tables hold
/// for each recipe what is counted for it over the table.
pub open spec fn prepared(p: Problem, given: Set<Set<nat>>) -> bool {
    &&& strictly_sorted(p.table)
    &&& forall|r: Set<nat>| holds(p.table, r) <==> given.contains(r)
    &&& p.table.len() == given.len()
    &&& p.min_cover.len() == p.table.len()
    &&& p.cost.len() == p.table.len()
    &&& forall|id: int|
        0 <= id < p.table.len() ==> #[trigger] p.min_cover[id] == min_cover_of(p.table, p.table[id])
    &&& forall|id: int| 0 <= id < p.table.len() ==> #[trigger] p.cost[id] == cost_of(p.table, p.table[id])
}

/// A table in the order of sets holds as many recipes as the set of its recipes.
pub proof fn lemma_sorted_len(table: Seq<Set<nat>>, given: Set<Set<nat>>)
    requires
        strictly_sorted(table),
        forall|r: Set<nat>| holds(table, r) <==> given.contains(r),
    ensures
        given.finite(),
        table.len() == given.len(),
{
    assert forall|i: int, j: int| 0 <= i < table.len() && 0 <= j < table.len() && i != j implies table[i] != table[j] by {
        if i < j {
            lemma_precedes_asymmetric(table[i], table[j]);
        } else {
            lemma_precedes_asymmetric(table[j], table[i]);
        }
    }
    assert(table.no_duplicates());
    table.unique_seq_to_set();
    assert(table.to_set() =~= given) by {
        assert forall|r: Set<nat>| table.to_set().contains(r) <==> given.contains(r) by {
            if table.to_set().contains(r) {
                let i = choose|i: int| 0 <= i < table.len() && table[i] == r;
                assert(holds(table, r));
            }
            if holds(table, r) {
                let i = choose|i: int| 0 <= i < table.len() && #[trigger] table[i] == r;
                assert(table.contains(r));
            }
        }
    }
}

/// Assembles an engine: the budgets and the bounds to prune with.
pub struct BranchBoundBuilder {
    max_calls: i32,
    max_size: usize,
    bound_functions: Vec<BoundEntry>,
}

impl BranchBoundBuilder {
    /// The call budget of the engine to be built.
    pub closed spec fn max_calls(&self) -> int {
        self.max_calls as int
    }

    /// The ingredient budget of the engine to be built.
    pub closed spec fn max_size(&self) -> nat {
        self.max_size as nat
    }

    /// The bounds added so far, in the order in which they were added.
    pub closed spec fn bounds(&self) -> Seq<BoundEntry> {
        self.bound_functions@
    }

    /// A builder with the two budgets and no bound yet.
    pub fn new(max_calls: i32, max_size: usize) -> (builder: Self)
        requires
            max_size > 0,
        ensures
            builder.max_calls() == max_calls,
            builder.max_size() == max_size,
            builder.bounds().len() == 0,
    {
        BranchBoundBuilder { max_calls, max_size, bound_functions: Vec::new() }
    }

    /// Adds `bound` after the bounds added so far.
    pub fn with_bound(self, bound: Box<dyn BoundFunction>) -> (builder: Self)
        ensures
            builder.max_calls() == self.max_calls(),
            builder.max_size() == self.max_size(),
            builder.bounds() == self.bounds().push(BoundEntry::Custom(bound)),
    {
        let mut builder = self;
        builder.bound_functions.push(BoundEntry::Custom(bound));
        builder
    }

    /// Adds the three default bounds: the number of candidates, the bound by
    /// ingredients of their own, and the bound by concentration.
    pub fn with_default_bounds(self) -> (builder: Self)
        ensures
            builder.max_calls() == self.max_calls(),
            builder.max_size() == self.max_size(),
            builder.bounds() == self.bounds() + default_bounds(),
    {
        let ghost before = self.bounds();
        let mut builder = self;
        builder.bound_functions.push(BoundEntry::Total);
        builder.bound_functions.push(BoundEntry::Singleton);
        builder.bound_functions.push(BoundEntry::Concentration);
        proof {
            assert(builder.bounds() =~= before + default_bounds());
        }
        builder
    }

    /// The engine: fresh, with the bounds added, or with the three default
    /// bounds where none was added.
    pub fn build(self) -> (engine: BranchBound)
        ensures
            engine.is_fresh(),
            engine.wf(),
            engine.run() == fresh_run(self.max_calls()),
            engine.problem().max_size == self.max_size(),
            self.bounds().len() > 0 ==> engine.problem().bounds == self.bounds(),
            self.bounds().len() == 0 ==> engine.problem().bounds == default_bounds(),
    {
        let max_calls = self.max_calls;
        let max_size = self.max_size;
        let bounds = if self.bound_functions.len() == 0 {
            // no bound was added, so the default ones are used
            let mut defaults: Vec<BoundEntry> = Vec::new();
            defaults.push(BoundEntry::Total);
            defaults.push(BoundEntry::Singleton);
            defaults.push(BoundEntry::Concentration);
            proof {
                assert(defaults@ =~= default_bounds());
            }
            defaults
        } else {
            self.bound_functions
        };
        let engine = BranchBound {
            calls: max_calls,
            max_size,
            highest_score: 0usize,
            highest: Vec::new(),
            counter: 0,
            min_cover: Vec::new(),
            min_amortized_cost: Vec::new(),
            initial: true,
            exhausted: false,
            all_cocktails: Vec::new(),
            bound_functions: bounds,
        };
        proof {
            assert(engine.run().best =~= Seq::<usize>::empty());
        }
        engine
    }
}

/// What a filter lets through of places within `n` are places within `n`.
pub proof fn lemma_filter_within(s: Seq<usize>, pred: spec_fn(usize) -> bool, n: nat)
    requires
        within(s, n),
    ensures
        within(s.filter(pred), n),
{
    let f = s.filter(pred);
    assert forall|i: int| 0 <= i < f.len() implies #[trigger] f[i] < n by {
        assert(f.contains(f[i]));
        s.lemma_filter_contains_rev(pred, f[i]);
        let j = choose|j: int| 0 <= j < s.len() && s[j] == f[i];
        assert(s[j] < n);
    }
}

} // verus!
