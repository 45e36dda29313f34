//! Upper bounds on the number of recipes that a branch of the search can
//! still add to its partial solution.

use crate::bitset::BitSet;
use crate::tables::views;
use vstd::prelude::*;

verus! {

/// The ingredients of the recipes `ids` of `table` taken together.
pub open spec fn footprint(table: Seq<Set<nat>>, ids: Seq<usize>) -> Set<nat>
    decreases ids.len(),
{
    if ids.len() == 0 {
        Set::empty()
    } else {
        footprint(table, ids.drop_last()).union(table[ids.last() as int])
    }
}

/// What a bound may read of the state of the search.
pub struct BoundContext<'a> {
    /// The recipes of the problem, in the order of sets; the candidates and
    /// the partial solution name recipes by their place in this table.
    pub recipes: &'a Vec<BitSet>,
    /// The recipes that can still be added on this branch.
    pub candidates: &'a Vec<usize>,
    /// The recipes committed on this branch.
    pub partial: &'a Vec<usize>,
    /// The ingredients of the committed recipes.
    pub partial_ingredients: &'a BitSet,
    /// The ingredient budget.
    pub max_size: usize,
    /// For each recipe, the least number of recipes that one of its
    /// ingredients is used by.
    pub min_cover: &'a Vec<usize>,
    /// For each recipe, its amortized cost.
    pub min_amortized_cost: &'a Vec<u128>,
}

/// The state of the search as a bound sees it, in mathematical terms.
pub struct ContextModel {
    pub table: Seq<Set<nat>>,
    pub candidates: Seq<usize>,
    pub partial: Seq<usize>,
    pub partial_ingredients: Set<nat>,
    pub max_size: nat,
    pub min_cover: Seq<usize>,
    pub cost: Seq<u128>,
}

impl ContextModel {
    /// The candidates and the committed recipes are recipes of the table, and
    /// the two tables cover it.
    pub open spec fn wf(self) -> bool {
        &&& forall|i: int| 0 <= i < self.candidates.len() ==> #[trigger] self.candidates[i] < self.table.len()
        &&& forall|i: int| 0 <= i < self.partial.len() ==> #[trigger] self.partial[i] < self.table.len()
        &&& self.min_cover.len() == self.table.len()
        &&& self.cost.len() == self.table.len()
    }
}

impl<'a> View for BoundContext<'a> {
    type V = ContextModel;

    open spec fn view(&self) -> ContextModel {
        ContextModel {
            table: views(self.recipes@),
            candidates: self.candidates@,
            partial: self.partial@,
            partial_ingredients: self.partial_ingredients@,
            max_size: self.max_size as nat,
            min_cover: self.min_cover@,
            cost: self.min_amortized_cost@,
        }
    }
}

/// An upper bound on the number of candidates that a branch can still add.
///
/// A bound is a function of the context alone: `bound_of` says what it is on
/// a context, and `compute` returns that. `bound_of` is never run; an
/// implementation that is compiled without being verified gives it any body.
pub trait BoundFunction: Send + Sync {
    /// The bound on a context.
    spec fn bound_of(&self, context: ContextModel) -> nat;

    /// Computes the bound on `context`.
    fn compute(&self, context: &BoundContext) -> (b: usize)
        requires
            context@.wf(),
        ensures
            b == self.bound_of(context@),
    ;

    /// The name of the bound.
    fn name(&self) -> &'static str;
}

/// The bound by the number of candidates.
pub open spec fn total_bound(context: ContextModel) -> nat {
    context.candidates.len()
}

/// The number of candidates.
pub struct TotalBound;

impl BoundFunction for TotalBound {
    open spec fn bound_of(&self, context: ContextModel) -> nat {
        total_bound(context)
    }

    fn compute(&self, context: &BoundContext) -> (b: usize) {
        context.candidates.len()
    }

    fn name(&self) -> (r: &'static str)
        ensures
            r@ == "TotalBound"@,
    {
        "TotalBound"
    }
}

/// Whether recipe `r` has an ingredient that no other recipe uses.
pub open spec fn has_unique(min_cover: Seq<usize>) -> spec_fn(usize) -> bool {
    |r: usize| min_cover[r as int] == 1
}

/// The number of ingredients that the budget still has room for.
pub open spec fn slack(context: ContextModel) -> nat {
    if context.partial_ingredients.len() <= context.max_size {
        (context.max_size - context.partial_ingredients.len()) as nat
    } else {
        0
    }
}

/// The bound by ingredients of their own: the candidates, but of those with
/// an ingredient that no other recipe uses no more than the budget has room
/// for.
pub open spec fn singleton_bound(context: ContextModel) -> nat {
    let unique = context.candidates.filter(has_unique(context.min_cover)).len();
    let room = slack(context);
    (context.candidates.len() - unique + if unique <= room {
        unique
    } else {
        room
    }) as nat
}

/// The candidates, but of those with an ingredient of their own no more than
/// the budget has room for: each of them costs at least that one ingredient.
pub struct SingletonBound;

impl BoundFunction for SingletonBound {
    open spec fn bound_of(&self, context: ContextModel) -> nat {
        singleton_bound(context)
    }

    fn compute(&self, context: &BoundContext) -> (b: usize) {
        let ghost pred = has_unique(context.min_cover@);
        let mut n_unique_cocktails: usize = 0;
        let mut i: usize = 0;
        while i < context.candidates.len()
            invariant
                i <= context.candidates@.len(),
                context@.wf(),
                pred == has_unique(context.min_cover@),
                n_unique_cocktails == context.candidates@.take(i as int).filter(pred).len(),
                n_unique_cocktails <= i,
            decreases context.candidates@.len() - i,
        {
            let id = context.candidates[i];
            proof {
                assert(context@.candidates[i as int] < context@.table.len());
            }
            proof {
                let before = context.candidates@.take(i as int);
                assert(context.candidates@.take(i + 1) =~= before.push(id));
                before.lemma_filter_push(id, pred);
            }
            if context.min_cover[id] == 1 {
                n_unique_cocktails += 1;
            }
            i += 1;
        }
        proof {
            assert(context.candidates@.take(context.candidates@.len() as int)
                =~= context.candidates@);
        }
        let used = context.partial_ingredients.len();
        let ingredient_budget: u64 = if used <= context.max_size as u64 {
            context.max_size as u64 - used
        } else {
            0
        };
        let counted = if n_unique_cocktails as u64 <= ingredient_budget {
            n_unique_cocktails
        } else {
            ingredient_budget as usize
        };
        context.candidates.len() - n_unique_cocktails + counted
    }

    fn name(&self) -> (r: &'static str)
        ensures
            r@ == "SingletonBound"@,
    {
        "SingletonBound"
    }
}

/// For each candidate, the number of its ingredients that are not yet bought.
pub open spec fn gains(table: Seq<Set<nat>>, candidates: Seq<usize>, bought: Set<nat>) -> Seq<u64> {
    Seq::new(candidates.len(), |i: int| table[candidates[i] as int].difference(bought).len() as u64)
}

/// The order in which gains are sorted.
pub open spec fn at_most_u64() -> spec_fn(u64, u64) -> bool {
    |a: u64, b: u64| a <= b
}

/// What is left of `count` candidates after the candidates with the largest
/// gains have gone, one by one from the end of `sorted`, until `excess`
/// ingredients are saved or no candidate is left; `taken` have gone already.
pub open spec fn after_removals(sorted: Seq<u64>, taken: nat, excess: int, count: nat) -> nat
    decreases sorted.len() - taken,
{
    if taken >= sorted.len() || excess <= 0 || count == 0 {
        count
    } else {
        after_removals(
            sorted,
            taken + 1,
            excess - sorted[sorted.len() - 1 - taken],
            (count - 1) as nat,
        )
    }
}

/// `slice::sort_unstable` on numbers: the same numbers, smallest first.
#[verifier::external_body]
fn sort_ascending(v: &mut Vec<u64>)
    ensures
        final(v)@.to_multiset() == old(v)@.to_multiset(),
        forall|i: int| 0 <= i < final(v)@.len() - 1 ==> final(v)@[i] <= #[trigger] final(v)@[i + 1],
{
    v.sort_unstable();
}

/// The bound by concentration: the candidates, less as many of those with
/// the largest gains as must go before the ingredients of the rest, with
/// those already bought, fit the budget.
pub open spec fn concentration_bound(context: ContextModel) -> nat {
    let all = footprint(context.table, context.candidates).union(context.partial_ingredients);
    if all.len() <= context.max_size {
        context.candidates.len()
    } else {
        after_removals(
            gains(context.table, context.candidates, context.partial_ingredients).sort_by(
                at_most_u64(),
            ),
            0,
            all.len() - context.max_size,
            context.candidates.len(),
        )
    }
}

/// The candidates, less as many of those with the largest gains as must go
/// before all ingredients of the rest, with those already bought, fit the budget.
pub struct ConcentrationBound;

impl BoundFunction for ConcentrationBound {
    open spec fn bound_of(&self, context: ContextModel) -> nat {
        concentration_bound(context)
    }

    fn compute(&self, context: &BoundContext) -> (b: usize) {
        let ghost table = views(context.recipes@);
        let ghost bought = context.partial_ingredients@;
        let count = context.candidates.len();
        let mut candidate_ingredients = BitSet::new();
        let mut i: usize = 0;
        while i < count
            invariant
                i <= count,
                count == context.candidates@.len(),
                context@.wf(),
                table == views(context.recipes@),
                candidate_ingredients@ == footprint(table, context.candidates@.take(i as int)),
            decreases count - i,
        {
            let id = context.candidates[i];
            proof {
                assert(context@.candidates[i as int] < context@.table.len());
            }
            proof {
                let before = context.candidates@.take(i as int);
                let after = context.candidates@.take(i + 1);
                assert(after.drop_last() =~= before);
                assert(after.last() == id);
            }
            candidate_ingredients.union_assign(&context.recipes[id]);
            proof {
                assert(table[id as int] == context.recipes@[id as int]@);
            }
            i += 1;
        }
        proof {
            assert(context.candidates@.take(count as int) =~= context.candidates@);
        }
        let all = candidate_ingredients.union(context.partial_ingredients);
        let total = all.len();
        if total <= context.max_size as u64 {
            return count;
        }
        let mut excess_ingredients: u64 = total - context.max_size as u64;
        let mut increases: Vec<u64> = Vec::new();
        let ghost wanted = gains(table, context.candidates@, bought);
        let mut i: usize = 0;
        while i < count
            invariant
                i <= count,
                count == context.candidates@.len(),
                context@.wf(),
                table == views(context.recipes@),
                bought == context.partial_ingredients@,
                wanted == gains(table, context.candidates@, bought),
                increases@ == wanted.take(i as int),
            decreases count - i,
        {
            let id = context.candidates[i];
            proof {
                assert(context@.candidates[i as int] < context@.table.len());
            }
            let increase = context.recipes[id].difference(context.partial_ingredients).len();
            increases.push(increase);
            proof {
                assert(table[id as int] == context.recipes@[id as int]@);
                assert(wanted[i as int] == increase);
                assert(wanted.take(i + 1) =~= wanted.take(i as int).push(wanted[i as int]));
            }
            i += 1;
        }
        proof {
            assert(wanted.take(count as int) =~= wanted);
        }
        sort_ascending(&mut increases);
        proof {
            lemma_sorted_is_sort_by(increases@, wanted);
        }
        let ghost sorted = increases@;
        let ghost excess: int = excess_ingredients as int;
        let ghost goal = after_removals(sorted, 0, excess, count as nat);
        let mut upper_increment = count;
        let mut left = increases.len();
        while left > 0 && excess_ingredients > 0 && upper_increment > 0
            invariant
                left <= sorted.len(),
                sorted == increases@,
                excess_ingredients > 0 ==> excess == excess_ingredients,
                excess_ingredients == 0 ==> excess <= 0,
                goal == after_removals(
                    sorted,
                    (sorted.len() - left) as nat,
                    excess,
                    upper_increment as nat,
                ),
            decreases left,
        {
            left -= 1;
            upper_increment -= 1;
            let ingredient_increase = increases[left];
            proof {
                excess = excess - ingredient_increase;
            }
            excess_ingredients = if ingredient_increase >= excess_ingredients {
                0
            } else {
                excess_ingredients - ingredient_increase
            };
        }
        upper_increment
    }

    fn name(&self) -> (r: &'static str)
        ensures
            r@ == "ConcentrationBound"@,
    {
        "ConcentrationBound"
    }
}

/// One bound of an engine: one of the three that the library has, or one that
/// was handed in.
pub enum BoundEntry {
    Total,
    Singleton,
    Concentration,
    Custom(Box<dyn BoundFunction>),
}

impl BoundEntry {
    /// The bound on a context.
    pub open spec fn bound(self, context: ContextModel) -> nat {
        match self {
            BoundEntry::Total => total_bound(context),
            BoundEntry::Singleton => singleton_bound(context),
            BoundEntry::Concentration => concentration_bound(context),
            BoundEntry::Custom(custom) => custom.bound_of(context),
        }
    }

    /// Computes the bound on `context`.
    pub fn compute(&self, context: &BoundContext) -> (b: usize)
        requires
            context@.wf(),
        ensures
            b == self.bound(context@),
    {
        match self {
            BoundEntry::Total => TotalBound.compute(context),
            BoundEntry::Singleton => SingletonBound.compute(context),
            BoundEntry::Concentration => ConcentrationBound.compute(context),
            BoundEntry::Custom(custom) => custom.compute(context),
        }
    }

    /// The name of the bound.
    pub fn name(&self) -> (r: &'static str)
        ensures
            self is Total ==> r@ == "TotalBound"@,
            self is Singleton ==> r@ == "SingletonBound"@,
            self is Concentration ==> r@ == "ConcentrationBound"@,
    {
        match self {
            BoundEntry::Total => TotalBound.name(),
            BoundEntry::Singleton => SingletonBound.name(),
            BoundEntry::Concentration => ConcentrationBound.name(),
            BoundEntry::Custom(custom) => custom.name(),
        }
    }
}

/// The bounds of an engine to which none was handed: the number of
/// candidates, the bound by ingredients of their own, the bound by concentration.
pub open spec fn default_bounds() -> Seq<BoundEntry> {
    seq![BoundEntry::Total, BoundEntry::Singleton, BoundEntry::Concentration]
}

/// A sequence with the same numbers as `given`, smallest first, is `given` sorted.
proof fn lemma_sorted_is_sort_by(sorted: Seq<u64>, given: Seq<u64>)
    requires
        sorted.to_multiset() == given.to_multiset(),
        forall|i: int| 0 <= i < sorted.len() - 1 ==> sorted[i] <= #[trigger] sorted[i + 1],
    ensures
        sorted == given.sort_by(at_most_u64()),
{
    let leq = at_most_u64();
    assert(vstd::relations::total_ordering(leq));
    given.lemma_sort_by_ensures(leq);
    lemma_steps_sorted(sorted, sorted.len() as int);
    assert(vstd::relations::sorted_by(sorted, leq));
    vstd::seq_lib::lemma_sorted_unique(sorted, given.sort_by(leq), leq);
}

/// A sequence that never steps down is sorted.
proof fn lemma_steps_sorted(s: Seq<u64>, n: int)
    requires
        0 <= n <= s.len(),
        forall|i: int| 0 <= i < s.len() - 1 ==> s[i] <= #[trigger] s[i + 1],
    ensures
        forall|i: int, j: int| 0 <= i < j < n ==> s[i] <= s[j],
    decreases n,
{
    if n > 1 {
        lemma_steps_sorted(s, n - 1);
        assert(s[n - 2] <= s[n - 2 + 1]);
    }
}

} // verus!
