//! Branch-and-bound search for the ingredient budget that covers the most recipes.
//!
//! Which set of at most `k` ingredients lets one make the most recipes? The
//! recipes are sets of ingredient numbers ([`BitSet`]); [`BranchBound`]
//! searches for the largest set of recipes whose ingredients, taken
//! together, are no more than `k`.

use vstd::prelude::*;

pub mod bits;
pub mod bitset;
pub mod bounds;
pub mod closure;
pub mod forbidden;
pub mod laws;
pub mod ops;
pub mod optimal;
pub mod order;
pub mod search;
pub mod soundness;
pub mod store;
pub mod tables;

pub use bitset::BitSet;
pub use forbidden::ForbiddenChecker;
pub use search::{BranchBound, BranchBoundBuilder};

verus! {

/// The number that stands for an ingredient.
pub type Ingredienti = i32;

/// The ingredients of a recipe, by number.
pub type IngredientSeti = BitSet;

} // verus!
