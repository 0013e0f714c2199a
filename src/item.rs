//! Items of a stream: a timestamp in ticks and an integer value.
use vstd::prelude::*;

verus! {

/// An item in a stream of inputs.
pub trait Item {
    spec fn spec_timestamp(&self) -> u64;

    spec fn spec_value(&self) -> i64;

    /// The arrival time of this item, in ticks.
    fn timestamp(&self) -> (r: u64)
        ensures
            r == self.spec_timestamp(),
    ;

    /// The signed number of ticks from `landmark` to this item's arrival.
    fn age(&self, landmark: u64) -> (r: i128)
        ensures
            r == self.spec_timestamp() - landmark,
    ;

    /// The value associated with this item.
    fn value(&self) -> (r: i64)
        ensures
            r == self.spec_value(),
    ;
}

/// A bare timestamp: one occurrence, of value one.
impl Item for u64 {
    open spec fn spec_timestamp(&self) -> u64 {
        *self
    }

    open spec fn spec_value(&self) -> i64 {
        1
    }

    fn timestamp(&self) -> (r: u64) {
        *self
    }

    fn age(&self, landmark: u64) -> (r: i128) {
        *self as i128 - landmark as i128
    }

    fn value(&self) -> (r: i64) {
        1
    }
}

/// A timestamp together with a value.
impl Item for (u64, i64) {
    open spec fn spec_timestamp(&self) -> u64 {
        self.0
    }

    open spec fn spec_value(&self) -> i64 {
        self.1
    }

    fn timestamp(&self) -> (r: u64) {
        self.0
    }

    fn age(&self, landmark: u64) -> (r: i128) {
        self.0 as i128 - landmark as i128
    }

    fn value(&self) -> (r: i64) {
        self.1
    }
}

} // verus!
