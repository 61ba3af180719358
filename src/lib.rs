//! In-place comparison sorts that report every swap to an observer, which
//! may ask the sort to stop after any swap.
use vstd::prelude::*;

pub mod inversions;
pub mod laws;
pub mod order;
pub mod orst;
pub mod swaps;

pub use orst::{BubbleOrst, InsertionOrst, Orster, QuickOrst};

verus! {

/// What an observer answers after each swap: `Yes` asks the sort to stop
/// at once, `No` lets it go on.
pub enum Exit {
    Yes,
    No,
}

} // verus!
