//! Separate aggregates of the items of non-negative and of negative value.
use vstd::prelude::*;
use crate::aggregate::Aggregator;
use crate::aggregate::basic::{BasicAggregator, settled_reference};
use crate::decay::ForwardDecay;
use crate::g::{Exponential, Function};
use crate::item::Item;

verus! {

/// A composite aggregator: a [`BasicAggregator`] for the items of
/// non-negative value and another for those of negative value, for instance
/// to weigh errors (negative) against successes.
pub struct SignAggregator<G, I> {
    positive: BasicAggregator<G, I>,
    negative: BasicAggregator<G, I>,
}

impl<G: Function, I: Item> SignAggregator<G, I> {
    pub closed spec fn spec_positive(&self) -> BasicAggregator<G, I> {
        self.positive
    }

    pub closed spec fn spec_negative(&self) -> BasicAggregator<G, I> {
        self.negative
    }

    /// Empty aggregates over the two decay models.
    pub fn new(positive: ForwardDecay<G>, negative: ForwardDecay<G>) -> (r: Self)
        requires
            positive.wf(),
            negative.wf(),
        ensures
            r.inv(),
            r.spec_positive().spec_decay() == positive,
            r.spec_negative().spec_decay() == negative,
            r.spec_positive().spec_sum() == 0 && r.spec_positive().spec_count() == 0,
            r.spec_negative().spec_sum() == 0 && r.spec_negative().spec_count() == 0,
    {
        SignAggregator { positive: BasicAggregator::new(positive), negative: BasicAggregator::new(negative) }
    }

    /// The aggregate of the items of non-negative value.
    pub fn positive(&self) -> (r: &BasicAggregator<G, I>)
        ensures
            *r == self.spec_positive(),
    {
        &self.positive
    }

    /// The aggregate of the items of negative value.
    pub fn negative(&self) -> (r: &BasicAggregator<G, I>)
        ensures
            *r == self.spec_negative(),
    {
        &self.negative
    }
}

impl<G: Function, I: Item> Aggregator for SignAggregator<G, I> {
    type Item = I;

    open spec fn inv(&self) -> bool {
        self.spec_positive().inv() && self.spec_negative().inv()
    }

    open spec fn accepts(&self, item: I) -> bool {
        if item.spec_value() >= 0 {
            self.spec_positive().accepts(item)
        } else {
            self.spec_negative().accepts(item)
        }
    }

    open spec fn updated(&self, item: I, next: Self) -> bool {
        if item.spec_value() >= 0 {
            self.spec_positive().updated(item, next.spec_positive()) && next.spec_negative() == self.spec_negative()
        } else {
            self.spec_negative().updated(item, next.spec_negative()) && next.spec_positive() == self.spec_positive()
        }
    }

    open spec fn emptied(&self, landmark: u64, next: Self) -> bool {
        self.spec_positive().emptied(landmark, next.spec_positive()) && self.spec_negative().emptied(landmark, next.spec_negative())
    }

    fn update(&mut self, item: I) {
        if item.value() >= 0 {
            self.positive.update(item);
        } else {
            self.negative.update(item);
        }
    }

    fn reset(&mut self, landmark: u64) {
        self.positive.reset(landmark);
        self.negative.reset(landmark);
    }
}

impl<I: Item> SignAggregator<Exponential, I> {
    /// Moves the landmark of both aggregates to `landmark`, rescaling each
    /// exactly; every decayed result stays that of accumulating the same
    /// items from scratch under the new landmark.
    pub fn update_landmark(&mut self, landmark: u64)
        requires
            old(self).inv(),
        ensures
            final(self).inv(),
            final(self).spec_positive().spec_landmark() == landmark,
            final(self).spec_negative().spec_landmark() == landmark,
            final(self).spec_positive().spec_decay() == old(self).spec_positive().spec_decay().with_landmark(
                settled_reference(old(self).spec_positive(), landmark)),
            final(self).spec_negative().spec_decay() == old(self).spec_negative().spec_decay().with_landmark(
                settled_reference(old(self).spec_negative(), landmark)),
            final(self).spec_positive().spec_items() == old(self).spec_positive().spec_items(),
            final(self).spec_negative().spec_items() == old(self).spec_negative().spec_items(),
    {
        self.positive.update_landmark(landmark);
        self.negative.update_landmark(landmark);
    }
}

} // verus!
