//! Collection-log rarity scoring: reads the rarity table, keeps the item
//! catalog and its category index, scores items by completion rate, and
//! reconciles previously awarded points with the current scores.
use vstd::prelude::*;

pub mod catalog;
pub mod points;
pub mod reconcile;
pub mod table;
pub mod text;

verus! {

} // verus!
