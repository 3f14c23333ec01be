pub mod builder;
pub mod clustering;
pub mod components;
pub mod filter;
pub mod graph;
pub mod laws;
pub mod pruning;
pub mod reach;
pub mod records;
pub mod removal;
pub mod store;
pub mod tally;

use vstd::prelude::*;

verus! {

/// A purchaser, known by the identifier under which purchases are grouped.
pub struct User {
    pub id: String,
}

} // verus!
