use branchbound::bounds::{
    BoundContext, BoundEntry, BoundFunction, ConcentrationBound, ContextModel, SingletonBound,
    TotalBound,
};
use branchbound::tables::{build_tables, count_ingredients, sort_recipes, COST_SCALE};
use branchbound::{BitSet, BranchBound, BranchBoundBuilder, ForbiddenChecker};
use rustc_hash::FxHashSet;

fn recipe(elements: &[u32]) -> BitSet {
    let mut set = BitSet::new();
    for &e in elements {
        set.insert(e);
    }
    set
}

fn sorted(raw: Vec<BitSet>) -> Vec<BitSet> {
    let refs: Vec<&BitSet> = raw.iter().collect();
    sort_recipes(&refs)
}

fn recipes(all: &[&[u32]]) -> FxHashSet<BitSet> {
    let mut set = FxHashSet::default();
    for r in all {
        set.insert(recipe(r));
    }
    set
}

fn solve(all: &[&[u32]], max_calls: i32, k: usize) -> (Vec<BitSet>, BranchBound) {
    let mut candidates = recipes(all);
    let mut partial = FxHashSet::default();
    let mut engine = BranchBound::new(max_calls, k);
    let best = engine.search(&mut candidates, &mut partial, &mut None);
    (best, engine)
}

fn ingredients_of(solution: &[BitSet]) -> BitSet {
    let mut all = BitSet::new();
    for r in solution {
        all.union_assign(r);
    }
    all
}

/// The largest number of recipes that some set of at most `k` ingredients
/// covers, by trying every set of ingredients below `universe`.
fn brute_force(all: &[&[u32]], universe: u32, k: usize) -> usize {
    let distinct: Vec<BitSet> = recipes(all).into_iter().collect();
    let mut best = 0;
    for mask in 0u32..(1u32 << universe) {
        if mask.count_ones() as usize > k {
            continue;
        }
        let mut chosen = BitSet::new();
        for e in 0..universe {
            if mask & (1 << e) != 0 {
                chosen.insert(e);
            }
        }
        let covered = distinct.iter().filter(|r| r.is_subset(&chosen)).count();
        if covered > best {
            best = covered;
        }
    }
    best
}

#[test]
fn trivial_cover() {
    let (best, _) = solve(&[&[0, 1], &[0, 1]], 1000, 2);
    assert_eq!(best.len(), 1);
    assert!(best[0] == recipe(&[0, 1]));
}

#[test]
fn two_disjoint_pairs_under_tight_budget() {
    let (best, _) = solve(&[&[0, 1], &[2, 3]], 1000, 2);
    assert_eq!(best.len(), 1);
}

#[test]
fn two_disjoint_pairs_with_generous_budget() {
    let (best, _) = solve(&[&[0, 1], &[2, 3]], 1000, 4);
    assert_eq!(best.len(), 2);
}

#[test]
fn overlap_wins() {
    let (best, _) = solve(&[&[0, 1], &[0, 2], &[3, 4]], 1000, 3);
    assert_eq!(best.len(), 2);
    assert!(ingredients_of(&best) == recipe(&[0, 1, 2]));
}

#[test]
fn singleton_bound_exercised() {
    let (best, _) = solve(&[&[0, 1], &[0, 2], &[0, 3], &[0, 4], &[5, 6]], 1000, 4);
    assert_eq!(best.len(), 3);
}

#[test]
fn unique_ingredient_trap() {
    let (best, _) = solve(&[&[0, 1], &[0, 2], &[3, 4], &[3, 5], &[6, 7]], 1000, 4);
    assert_eq!(best.len(), 2);
}

#[test]
fn empty_recipe_set_gives_empty_solution() {
    let (best, engine) = solve(&[], 1000, 3);
    assert_eq!(best.len(), 0);
    assert_eq!(engine.highest_score(), 0);
    assert_eq!(engine.counter(), 1);
    assert!(!engine.budget_exhausted());
}

#[test]
fn solution_is_feasible_and_closed() {
    let all: &[&[u32]] = &[&[0, 1, 2], &[1, 2], &[2, 3], &[3, 4, 5], &[0, 5], &[1, 3]];
    for k in 1..=6usize {
        let (best, engine) = solve(all, 10_000, k);
        let used = ingredients_of(&best);
        if k >= 3 {
            assert!(used.len() <= k as u64);
        }
        for r in &best {
            assert!(r.is_subset(&used));
        }
        assert_eq!(engine.highest_score(), best.len());
    }
}

#[test]
fn search_is_optimal_on_small_inputs() {
    let inputs: Vec<Vec<&[u32]>> = vec![
        vec![&[0, 1], &[0, 2], &[3, 4]],
        vec![&[0, 1], &[0, 2], &[0, 3], &[0, 4], &[5, 6]],
        vec![&[0, 1], &[0, 2], &[3, 4], &[3, 5], &[6, 7]],
        vec![&[0, 1, 2], &[1, 2], &[2, 3], &[3, 4, 5], &[0, 5], &[1, 3], &[4, 6], &[6, 7]],
        vec![&[0], &[1], &[2], &[0, 1, 2], &[3, 4], &[2, 4]],
    ];
    for all in &inputs {
        let largest = all.iter().map(|r| r.len()).max().unwrap();
        for k in largest..=8 {
            let (best, engine) = solve(all, 1_000_000, k);
            assert!(!engine.budget_exhausted());
            assert_eq!(best.len(), brute_force(all, 8, k));
            assert!(ingredients_of(&best).len() <= k as u64);
        }
    }
}

#[test]
fn budget_is_respected() {
    let all: &[&[u32]] = &[&[0, 1], &[0, 2], &[3, 4], &[3, 5], &[6, 7], &[1, 7], &[2, 6]];
    for max_calls in [0, 1, 2, 3, 5, 8] {
        let (best, engine) = solve(all, max_calls, 4);
        assert!(engine.counter() as i32 <= max_calls);
        assert_eq!(engine.calls(), max_calls - engine.counter() as i32);
        assert!(ingredients_of(&best).len() <= 4);
    }
    let (best, engine) = solve(all, 0, 4);
    assert_eq!(best.len(), 0);
    assert_eq!(engine.counter(), 0);
    assert!(engine.budget_exhausted());
    let (_, engine) = solve(all, -3, 4);
    assert_eq!(engine.counter(), 0);
    assert_eq!(engine.calls(), -3);
    assert!(engine.budget_exhausted());
    let (_, engine) = solve(all, 1, 4);
    assert_eq!(engine.counter(), 1);
    assert!(engine.budget_exhausted());
}

#[test]
fn score_grows_with_the_budget_of_calls() {
    let all: &[&[u32]] = &[&[0, 1], &[0, 2], &[3, 4], &[3, 5], &[6, 7], &[1, 7], &[2, 6]];
    let mut last = 0;
    for max_calls in 0..40 {
        let (best, _) = solve(all, max_calls, 5);
        assert!(best.len() >= last);
        last = best.len();
    }
}

#[test]
fn two_runs_give_the_same_solution() {
    let all: &[&[u32]] = &[&[4, 1], &[0, 2], &[3, 4], &[3, 5], &[6, 7], &[1, 7], &[2, 6], &[9, 70]];
    let (first, a) = solve(all, 10_000, 5);
    // the same recipes, put into the hash set in another order
    let mut reversed: Vec<&[u32]> = all.to_vec();
    reversed.reverse();
    let (second, b) = solve(&reversed, 10_000, 5);
    assert_eq!(first.len(), second.len());
    for (x, y) in first.iter().zip(second.iter()) {
        assert!(x == y);
    }
    assert_eq!(a.counter(), b.counter());
}

#[test]
fn search_leaves_its_arguments() {
    let mut candidates = recipes(&[&[0, 1], &[2, 3]]);
    let mut partial = FxHashSet::default();
    let mut forbidden = None;
    let mut engine = BranchBound::new(100, 4);
    assert!(engine.initial());
    let best = engine.search(&mut candidates, &mut partial, &mut forbidden);
    assert_eq!(best.len(), 2);
    assert!(!engine.initial());
    assert_eq!(candidates.len(), 2);
    assert!(partial.is_empty());
    assert_eq!(forbidden.unwrap().len(), 0);
    assert_eq!(engine.max_size(), 4);
    assert_eq!(engine.highest().len(), 2);
}

#[test]
fn oversized_recipe_breaks_feasibility() {
    // alone, a recipe with more ingredients than the budget is pruned away
    let (best, _) = solve(&[&[0, 1, 2]], 100, 2);
    assert_eq!(best.len(), 0);
    // among recipes that share its ingredients it becomes the pivot and is
    // committed all the same
    let (best, _) = solve(&[&[0, 1, 2], &[0, 1, 2, 3], &[0, 1, 2, 4]], 100, 2);
    assert_eq!(best.len(), 1);
    assert_eq!(ingredients_of(&best).len(), 3);
}

struct HalfBound;

impl BoundFunction for HalfBound {
    fn bound_of(&self, _context: ContextModel) -> vstd::prelude::nat {
        unreachable!()
    }

    fn compute(&self, context: &BoundContext) -> usize {
        context.candidates.len() / 2
    }

    fn name(&self) -> &'static str {
        "HalfBound"
    }
}

struct NoBound;

impl BoundFunction for NoBound {
    fn bound_of(&self, _context: ContextModel) -> vstd::prelude::nat {
        unreachable!()
    }

    fn compute(&self, _context: &BoundContext) -> usize {
        usize::MAX
    }

    fn name(&self) -> &'static str {
        "NoBound"
    }
}

#[test]
fn builder_installs_bounds() {
    let defaults = BranchBoundBuilder::new(1000, 10).build();
    assert_eq!(defaults.bound_count(), 3);
    let extended = BranchBoundBuilder::new(1000, 10)
        .with_default_bounds()
        .with_bound(Box::new(HalfBound))
        .build();
    assert_eq!(extended.bound_count(), 4);
    let custom = BranchBoundBuilder::new(1000, 10).with_bound(Box::new(HalfBound)).build();
    assert_eq!(custom.bound_count(), 1);
    assert_eq!(custom.max_size(), 10);
    assert_eq!(custom.calls(), 1000);
    assert_eq!(custom.counter(), 0);
    assert!(custom.initial());
}

#[test]
fn a_bound_that_never_prunes_searches_everything() {
    let all: &[&[u32]] = &[&[0, 1], &[0, 2], &[3, 4], &[3, 5], &[6, 7]];
    let mut candidates = recipes(all);
    let mut engine = BranchBoundBuilder::new(100_000, 4).with_bound(Box::new(NoBound)).build();
    let best = engine.search(&mut candidates, &mut FxHashSet::default(), &mut None);
    assert_eq!(best.len(), 2);
    let (_, pruned) = solve(all, 100_000, 4);
    assert!(pruned.counter() <= engine.counter());
}

#[test]
fn a_bound_that_prunes_too_much_stops_the_search() {
    let all: &[&[u32]] = &[&[0, 1], &[2, 3]];
    let mut candidates = recipes(all);
    let mut engine = BranchBoundBuilder::new(1000, 4).with_bound(Box::new(HalfBound)).build();
    // HalfBound gives 1 for two candidates: more than the threshold 0, so the
    // pivot is included; with one candidate left it gives 0 and the branch ends
    let best = engine.search(&mut candidates, &mut FxHashSet::default(), &mut None);
    assert_eq!(best.len(), 1);
}

#[test]
fn forbidden_checker_tests_subsets() {
    let empty = ForbiddenChecker::new();
    assert!(!empty.is_forbidden(&recipe(&[1, 2, 3])));
    assert_eq!(empty.len(), 0);
    let one = ForbiddenChecker::with_base(&empty, recipe(&[1, 2]));
    assert!(one.is_forbidden(&recipe(&[1, 2, 3])));
    assert!(one.is_forbidden(&recipe(&[1, 2])));
    assert!(!one.is_forbidden(&recipe(&[1, 3])));
    let two = ForbiddenChecker::with_base(&one, recipe(&[3, 100]));
    assert_eq!(two.len(), 2);
    assert!(two.is_forbidden(&recipe(&[3, 100, 7])));
    assert!(two.is_forbidden(&recipe(&[1, 2])));
    assert!(!two.is_forbidden(&recipe(&[3, 7])));
    // the base is left as it was
    assert_eq!(one.len(), 1);
    assert!(!one.is_forbidden(&recipe(&[3, 100, 7])));
}

#[test]
fn recipes_are_sorted_and_merged() {
    let raw = vec![recipe(&[1]), recipe(&[0, 1]), recipe(&[0]), recipe(&[1]), recipe(&[64])];
    let table = sorted(raw);
    assert_eq!(table.len(), 4);
    // as numbers: 1, 2, 3 and 2^64
    assert!(table[0] == recipe(&[0]));
    assert!(table[1] == recipe(&[1]));
    assert!(table[2] == recipe(&[0, 1]));
    assert!(table[3] == recipe(&[64]));
}

#[test]
fn tables_hold_counts_and_costs() {
    // ingredient 0 is in three recipes, 1 and 2 in two, 3 in one
    let table = sorted(vec![recipe(&[0, 1]), recipe(&[0, 2, 3]), recipe(&[0, 1, 2])]);
    let counts = count_ingredients(&table);
    assert_eq!(counts.get(&0), Some(&3));
    assert_eq!(counts.get(&1), Some(&2));
    assert_eq!(counts.get(&2), Some(&2));
    assert_eq!(counts.get(&3), Some(&1));
    assert_eq!(counts.get(&4), None);
    let (min_cover, cost) = build_tables(&table, &counts);
    let at = |r: &BitSet| table.iter().position(|t| t == r).unwrap();
    let third = COST_SCALE / 3;
    let half = COST_SCALE / 2;
    assert_eq!(min_cover[at(&recipe(&[0, 1]))], 2);
    assert_eq!(cost[at(&recipe(&[0, 1]))], third + half);
    assert_eq!(min_cover[at(&recipe(&[0, 2, 3]))], 1);
    assert_eq!(cost[at(&recipe(&[0, 2, 3]))], third + half + COST_SCALE);
    assert_eq!(min_cover[at(&recipe(&[0, 1, 2]))], 2);
    assert_eq!(cost[at(&recipe(&[0, 1, 2]))], third + half + half);
    // a recipe without ingredients costs nothing and has no least count
    let lone = sorted(vec![BitSet::new()]);
    let (min_cover, cost) = build_tables(&lone, &count_ingredients(&lone));
    assert_eq!(min_cover[0], usize::MAX);
    assert_eq!(cost[0], 0);
}

fn context_values(
    table: &[BitSet],
    candidates: &[usize],
    partial: &[usize],
    k: usize,
) -> (usize, usize, usize) {
    let table = table.to_vec();
    let counts = count_ingredients(&table);
    let (min_cover, cost) = build_tables(&table, &counts);
    let candidates = candidates.to_vec();
    let partial = partial.to_vec();
    let mut bought = BitSet::new();
    for &id in &partial {
        bought.union_assign(&table[id]);
    }
    let context = BoundContext {
        recipes: &table,
        candidates: &candidates,
        partial: &partial,
        partial_ingredients: &bought,
        max_size: k,
        min_cover: &min_cover,
        min_amortized_cost: &cost,
    };
    assert_eq!(BoundEntry::Total.compute(&context), TotalBound.compute(&context));
    assert_eq!(BoundEntry::Singleton.compute(&context), SingletonBound.compute(&context));
    assert_eq!(BoundEntry::Concentration.compute(&context), ConcentrationBound.compute(&context));
    (
        TotalBound.compute(&context),
        SingletonBound.compute(&context),
        ConcentrationBound.compute(&context),
    )
}

#[test]
fn bounds_on_given_states() {
    // recipes {0,1}, {0,2}, {0,3}, {0,4}, {5,6}: every recipe has an ingredient of its own
    let table = sorted(vec![
        recipe(&[0, 1]),
        recipe(&[0, 2]),
        recipe(&[0, 3]),
        recipe(&[0, 4]),
        recipe(&[5, 6]),
    ]);
    let all = [0, 1, 2, 3, 4];
    // nothing bought, budget 4: five candidates, of the five with an ingredient
    // of their own only four count; seven ingredients are three too many, and
    // the two largest gains, 2 and 2, save them
    assert_eq!(context_values(&table, &all, &[], 4), (5, 4, 3));
    // budget 7: everything fits
    assert_eq!(context_values(&table, &all, &[], 7), (5, 5, 5));
    // budget 6: one ingredient too many, one recipe goes
    assert_eq!(context_values(&table, &all, &[], 6), (5, 5, 4));
    // no candidate
    assert_eq!(context_values(&table, &[], &[], 4), (0, 0, 0));
    // with {0,1} bought and budget 3, one more ingredient has room
    let bought = table.iter().position(|r| *r == recipe(&[0, 1])).unwrap();
    let rest: Vec<usize> = (0..5).filter(|&i| i != bought).collect();
    // four candidates; only one of the four with an ingredient of its own
    // counts; the gains are 1, 1, 1, 2 against four ingredients too many
    assert_eq!(context_values(&table, &rest, &[bought], 3), (4, 1, 1));
    assert_eq!(TotalBound.name(), "TotalBound");
    assert_eq!(SingletonBound.name(), "SingletonBound");
    assert_eq!(ConcentrationBound.name(), "ConcentrationBound");
    assert_eq!(BoundEntry::Custom(Box::new(HalfBound)).name(), "HalfBound");
}

#[test]
fn concentration_removes_the_largest_gains_first() {
    // gains 3, 1 and 2 in the order of the table; three ingredients too many
    // are saved by the one recipe that gains 3, wherever it stands
    let table = sorted(vec![recipe(&[0, 1, 2]), recipe(&[3]), recipe(&[4, 5])]);
    let three = table.iter().position(|r| *r == recipe(&[0, 1, 2])).unwrap();
    let one = table.iter().position(|r| *r == recipe(&[3])).unwrap();
    let two = table.iter().position(|r| *r == recipe(&[4, 5])).unwrap();
    for order in [
        [three, one, two],
        [three, two, one],
        [one, three, two],
        [one, two, three],
        [two, one, three],
        [two, three, one],
    ] {
        assert_eq!(context_values(&table, &order, &[], 3), (3, 3, 2));
        // four too many: the gains 3 and 2 go
        assert_eq!(context_values(&table, &order, &[], 2), (3, 2, 1));
        // six too many: all go
        assert_eq!(context_values(&table, &order, &[], 0), (3, 0, 0));
    }
}

#[test]
fn ingredient_counts_hold_no_other_key() {
    let table = sorted(vec![recipe(&[2, 70]), recipe(&[70])]);
    let counts = count_ingredients(&table);
    assert_eq!(counts.len(), 2);
    assert_eq!(counts.get(&70), Some(&2));
    assert_eq!(counts.get(&2), Some(&1));
}

#[test]
fn try_search_refuses_what_search_cannot_take() {
    let mut candidates = recipes(&[&[0, 1], &[2, 3]]);
    let mut none = FxHashSet::default();
    let mut engine = BranchBound::new(100, 4);
    // something committed beforehand
    let mut committed = recipes(&[&[0, 1]]);
    let mut forbidden = None;
    assert!(engine.try_search(&mut candidates, &mut committed, &mut forbidden).is_none());
    assert!(engine.initial());
    assert_eq!(engine.counter(), 0);
    assert!(forbidden.is_none());
    // a fresh engine and nothing committed
    let best = engine.try_search(&mut candidates, &mut none, &mut forbidden).unwrap();
    assert_eq!(best.len(), 2);
    assert_eq!(forbidden.unwrap().len(), 0);
    let entries = engine.counter();
    // the engine is spent
    assert!(engine.try_search(&mut candidates, &mut none, &mut None).is_none());
    assert_eq!(engine.counter(), entries);
    assert_eq!(engine.highest().len(), 2);
}

#[test]
fn result_holds_what_its_ingredients_cover() {
    let inputs: Vec<Vec<&[u32]>> = vec![
        vec![&[0, 1], &[2, 3], &[2, 3, 4]],
        vec![&[0, 1, 2], &[1, 2], &[2, 3], &[3, 4, 5], &[0, 5], &[1, 3], &[4, 6], &[6, 7]],
        vec![&[0], &[1], &[2], &[0, 1, 2], &[3, 4], &[2, 4]],
    ];
    for all in &inputs {
        let given = recipes(all);
        for k in 3..=6 {
            for max_calls in [0, 1, 2, 3, 7, 1000] {
                let (best, _) = solve(all, max_calls, k);
                let used = ingredients_of(&best);
                for (i, r) in best.iter().enumerate() {
                    assert!(given.contains(r));
                    assert!(r.is_subset(&used));
                    assert!(best[..i].iter().all(|earlier| earlier != r));
                }
                for r in &given {
                    assert_eq!(r.is_subset(&used), best.contains(r));
                }
            }
        }
    }
}

#[test]
fn result_comes_in_the_order_of_commitment() {
    let (best, _) = solve(&[&[0, 1], &[2, 3], &[2, 3, 4]], 1000, 4);
    assert_eq!(best.len(), 2);
    assert!(best[0] == recipe(&[2, 3]));
    assert!(best[1] == recipe(&[0, 1]));
}

#[test]
fn a_recipe_without_ingredients_can_be_left_out() {
    // with one call only the root is entered, and nothing is committed there
    let (best, _) = solve(&[&[], &[0]], 1, 2);
    assert_eq!(best.len(), 0);
    let (best, _) = solve(&[&[], &[0]], 1000, 2);
    assert_eq!(best.len(), 2);
}
