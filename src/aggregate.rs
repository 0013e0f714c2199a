//! Decay-aware aggregates over streams of items.
use vstd::prelude::*;

pub mod arithmetic;
pub mod basic;
pub mod minmax;
pub mod sign;

pub use arithmetic::ArithmeticAggregation;
pub use basic::BasicAggregator;
pub use minmax::MinMaxAggregator;
pub use sign::SignAggregator;

verus! {

/// Aggregates information about items in an unordered stream.
pub trait Aggregator: Sized {
    type Item;

    /// The aggregator's invariant.
    spec fn inv(&self) -> bool;

    /// `item` can be added without a total leaving its machine range.
    spec fn accepts(&self, item: Self::Item) -> bool;

    /// `next` is this aggregator with `item` added.
    spec fn updated(&self, item: Self::Item, next: Self) -> bool;

    /// `next` is this aggregator emptied, with its landmark at `landmark`.
    spec fn emptied(&self, landmark: u64, next: Self) -> bool;

    /// Update the aggregation with the given item.
    fn update(&mut self, item: Self::Item)
        requires
            old(self).inv(),
            old(self).accepts(item),
        ensures
            final(self).inv(),
            old(self).updated(item, *final(self)),
    ;

    /// Reset the aggregation to the initial state: the same as a new
    /// aggregator with the same decay model and the given landmark.
    fn reset(&mut self, landmark: u64)
        requires
            old(self).inv(),
        ensures
            final(self).inv(),
            old(self).emptied(landmark, *final(self)),
    ;
}

} // verus!
