//! Building blocks shared by every phase.
use vstd::prelude::*;

pub mod chars;
pub mod densemap;
pub mod diagnostics;
pub mod ids;
pub mod keys;
pub mod reach;
pub mod sorted;
pub mod span;
pub mod text;
pub mod tsv;

verus! {

/// The models of the items of a sequence, in order.
pub open spec fn views<T: View>(items: Seq<T>) -> Seq<T::V> {
    items.map_values(|item: T| item@)
}

/// Appending an item appends its model.
pub broadcast proof fn lemma_views_push<T: View>(items: Seq<T>, item: T)
    ensures
        #[trigger] views(items.push(item)) == views(items).push(item@),
{
    assert(views(items.push(item)) =~= views(items).push(item@));
}

} // verus!
