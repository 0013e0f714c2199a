//! Forward decay over streams of timestamped, valued items: decayed weights,
//! decayed aggregates (sum, count, average, min, max) and a Space-Saving
//! counter for the heaviest keys of a decaying stream.
//!
//! Time is measured in whole ticks (`u64`), weights are integers, and every
//! decayed quantity is returned as an exact [`Ratio`] of a landmark-relative
//! total and the normalizing factor of the query time.
pub mod g;
pub mod item;
pub mod ratio;
pub mod decay;
pub mod aggregate;
pub mod space_saving;

pub use decay::ForwardDecay;
pub use item::Item;
pub use ratio::Ratio;
