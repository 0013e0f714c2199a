//! Decayed minimum and maximum.
use vstd::prelude::*;
use crate::aggregate::Aggregator;
use crate::decay::ForwardDecay;
use crate::g::Function;
use crate::item::Item;
use crate::ratio::Ratio;

verus! {

/// The landmark-relative weighted value of `item` under `fd`, by which
/// items are compared.
pub open spec fn static_value<G: Function, I: Item>(fd: ForwardDecay<G>, item: I) -> int {
    fd.g_at(item.spec_timestamp()) * item.spec_value()
}

/// The items that hold the extremes: none yet, one that is both, or the
/// minimum and the maximum.
pub(crate) enum MinMax<I> {
    Neither,
    Same(I),
    Both(I, I),
}

impl<I> MinMax<I> {
    pub(crate) open spec fn spec_min(&self) -> Option<I> {
        match self {
            MinMax::Neither => None,
            MinMax::Same(x) => Some(*x),
            MinMax::Both(x, _) => Some(*x),
        }
    }

    pub(crate) open spec fn spec_max(&self) -> Option<I> {
        match self {
            MinMax::Neither => None,
            MinMax::Same(x) => Some(*x),
            MinMax::Both(_, x) => Some(*x),
        }
    }

    fn min(&self) -> (r: Option<&I>)
        ensures
            r is None <==> self.spec_min() is None,
            r matches Some(x) ==> self.spec_min() == Some(*x),
    {
        match self {
            MinMax::Neither => None,
            MinMax::Same(min_max) => Some(min_max),
            MinMax::Both(min, _) => Some(min),
        }
    }

    fn max(&self) -> (r: Option<&I>)
        ensures
            r is None <==> self.spec_max() is None,
            r matches Some(x) ==> self.spec_max() == Some(*x),
    {
        match self {
            MinMax::Neither => None,
            MinMax::Same(min_max) => Some(min_max),
            MinMax::Both(_, max) => Some(max),
        }
    }
}

/// The extremes with `item` added: it becomes the minimum when it is below
/// the minimum, and the maximum when it is above the maximum; on equality
/// the item already held stays.
pub open spec fn extended<G: Function, I: Item>(fd: ForwardDecay<G>, old_best: Option<I>, item: I, lowest: bool) -> Option<I> {
    match old_best {
        None => Some(item),
        Some(b) => if (lowest && static_value(fd, item) < static_value(fd, b)) || (!lowest && static_value(fd, item) > static_value(fd, b)) {
            Some(item)
        } else {
            Some(b)
        },
    }
}

/// Adds `item` to the extremes `mm`, comparing by landmark-relative
/// weighted value.
pub(crate) fn fold_extremes<G: Function, I: Item>(decay: &ForwardDecay<G>, mm: MinMax<I>, item: I) -> (r: MinMax<I>)
    requires
        decay.wf(),
        decay.fits_at(item.spec_timestamp()),
        mm.spec_min() matches Some(x) ==> decay.fits_at(x.spec_timestamp()),
        mm.spec_max() matches Some(x) ==> decay.fits_at(x.spec_timestamp()),
        mm.spec_min() is None <==> mm.spec_max() is None,
        mm.spec_min() is Some ==> static_value(*decay, mm.spec_min()->0) <= static_value(*decay, mm.spec_max()->0),
    ensures
        r.spec_min() == extended(*decay, mm.spec_min(), item, true),
        r.spec_max() == extended(*decay, mm.spec_max(), item, false),
{
    match mm {
        MinMax::Neither => MinMax::Same(item),
        MinMax::Same(min_max) => {
            let existing = decay.static_weighted_value(&min_max);
            let incoming = decay.static_weighted_value(&item);
            if incoming < existing {
                MinMax::Both(item, min_max)
            } else if incoming > existing {
                MinMax::Both(min_max, item)
            } else {
                MinMax::Same(min_max)
            }
        },
        MinMax::Both(min, max) => {
            let min_value = decay.static_weighted_value(&min);
            let max_value = decay.static_weighted_value(&max);
            let incoming = decay.static_weighted_value(&item);
            if incoming < min_value {
                MinMax::Both(item, max)
            } else if incoming > max_value {
                MinMax::Both(min, item)
            } else {
                MinMax::Both(min, max)
            }
        },
    }
}

/// The decayed minimum and maximum of a stream: the items of least and of
/// greatest landmark-relative weighted value. An old large value can be
/// overtaken by a newer smaller one.
pub struct MinMaxAggregator<G, I> {
    decay: ForwardDecay<G>,
    min_max: MinMax<I>,
    seen: Ghost<Seq<I>>,
}

impl<G: Function, I: Item> MinMaxAggregator<G, I> {
    pub closed spec fn spec_decay(&self) -> ForwardDecay<G> {
        self.decay
    }

    /// The item of least weighted value, if any.
    pub closed spec fn spec_min(&self) -> Option<I> {
        self.min_max.spec_min()
    }

    /// The item of greatest weighted value, if any.
    pub closed spec fn spec_max(&self) -> Option<I> {
        self.min_max.spec_max()
    }

    /// The items added since the aggregator was made or reset.
    pub closed spec fn seen(&self) -> Seq<I> {
        self.seen@
    }

    /// An empty aggregator over `decay`.
    pub fn new(decay: ForwardDecay<G>) -> (r: Self)
        requires
            decay.wf(),
        ensures
            r.inv(),
            r.spec_decay() == decay,
            r.seen() == Seq::<I>::empty(),
    {
        MinMaxAggregator { decay, min_max: MinMax::Neither, seen: Ghost(Seq::empty()) }
    }

    /// The item of least weighted value, or `None` before any item.
    pub fn min(&self) -> (r: Option<&I>)
        ensures
            r is None <==> self.spec_min() is None,
            r matches Some(x) ==> self.spec_min() == Some(*x),
    {
        self.min_max.min()
    }

    /// The item of greatest weighted value, or `None` before any item.
    pub fn max(&self) -> (r: Option<&I>)
        ensures
            r is None <==> self.spec_max() is None,
            r matches Some(x) ==> self.spec_max() == Some(*x),
    {
        self.min_max.max()
    }

    /// The decay model of this aggregator.
    pub fn decay(&self) -> (r: &ForwardDecay<G>)
        ensures
            *r == self.spec_decay(),
    {
        &self.decay
    }

    /// The decayed value `weight(min, t) * value(min)` of the minimum at
    /// `timestamp`, or `None` before any item.
    pub fn min_at(&self, timestamp: u64) -> (r: Option<Ratio>)
        requires
            self.inv(),
            timestamp > self.spec_decay().spec_landmark() ==> self.spec_decay().fits_at(timestamp),
        ensures
            r is None <==> self.spec_min() is None,
            r matches Some(q) ==> (q.num(), q.den()) == self.spec_decay().spec_decayed_value(
                self.spec_min()->0.spec_timestamp(), self.spec_min()->0.spec_value(), timestamp),
    {
        proof {
            if let Some(m) = self.spec_min() {
                let i = self.seen().index_of(m);
                assert(self.seen()[i] == m);
            }
        }
        match self.min_max.min() {
            Some(x) => Some(self.decay.decayed_value(x, timestamp)),
            None => None,
        }
    }

    /// The decayed value `weight(max, t) * value(max)` of the maximum at
    /// `timestamp`, or `None` before any item.
    pub fn max_at(&self, timestamp: u64) -> (r: Option<Ratio>)
        requires
            self.inv(),
            timestamp > self.spec_decay().spec_landmark() ==> self.spec_decay().fits_at(timestamp),
        ensures
            r is None <==> self.spec_max() is None,
            r matches Some(q) ==> (q.num(), q.den()) == self.spec_decay().spec_decayed_value(
                self.spec_max()->0.spec_timestamp(), self.spec_max()->0.spec_value(), timestamp),
    {
        proof {
            if let Some(m) = self.spec_max() {
                let i = self.seen().index_of(m);
                assert(self.seen()[i] == m);
            }
        }
        match self.min_max.max() {
            Some(x) => Some(self.decay.decayed_value(x, timestamp)),
            None => None,
        }
    }

    /// The extremes are items seen, and no item seen lies beyond them;
    /// there are none exactly when no item has been seen.
    pub proof fn lemma_extremes(&self)
        requires
            self.inv(),
        ensures
            self.spec_min() is None <==> self.seen().len() == 0,
            self.spec_max() is None <==> self.seen().len() == 0,
            self.spec_min() matches Some(m) ==> self.seen().contains(m) && forall|i: int| 0 <= i < self.seen().len()
                ==> static_value(self.spec_decay(), m) <= static_value(self.spec_decay(), #[trigger] self.seen()[i]),
            self.spec_max() matches Some(m) ==> self.seen().contains(m) && forall|i: int| 0 <= i < self.seen().len()
                ==> static_value(self.spec_decay(), m) >= static_value(self.spec_decay(), #[trigger] self.seen()[i]),
    {
    }
}

impl<G: Function, I: Item> Aggregator for MinMaxAggregator<G, I> {
    type Item = I;

    open spec fn inv(&self) -> bool {
        let fd = self.spec_decay();
        let s = self.seen();
        &&& fd.wf()
        &&& forall|i: int| 0 <= i < s.len() ==> fd.fits_at((#[trigger] s[i]).spec_timestamp())
        &&& (self.spec_min() is None <==> s.len() == 0)
        &&& (self.spec_max() is None <==> s.len() == 0)
        &&& self.spec_min() matches Some(m) ==> s.contains(m) && forall|i: int| 0 <= i < s.len() ==> static_value(fd, m) <= static_value(fd, #[trigger] s[i])
        &&& self.spec_max() matches Some(m) ==> s.contains(m) && forall|i: int| 0 <= i < s.len() ==> static_value(fd, m) >= static_value(fd, #[trigger] s[i])
    }

    open spec fn accepts(&self, item: I) -> bool {
        self.spec_decay().fits_at(item.spec_timestamp())
    }

    open spec fn updated(&self, item: I, next: Self) -> bool {
        &&& next.spec_decay() == self.spec_decay()
        &&& next.seen() == self.seen().push(item)
        &&& next.spec_min() == extended(self.spec_decay(), self.spec_min(), item, true)
        &&& next.spec_max() == extended(self.spec_decay(), self.spec_max(), item, false)
    }

    open spec fn emptied(&self, landmark: u64, next: Self) -> bool {
        &&& next.spec_decay().spec_landmark() == landmark
        &&& next.spec_decay().spec_g() == self.spec_decay().spec_g()
        &&& next.seen() == Seq::<I>::empty()
    }

    fn update(&mut self, item: I) {
        let ghost s = self.seen@;
        let ghost fd = self.decay;
        let ghost old_min = self.min_max.spec_min();
        let ghost old_max = self.min_max.spec_max();
        proof {
            if let Some(m) = old_min {
                let i = s.index_of(m);
                assert(s[i] == m);
            }
            if let Some(m) = old_max {
                let i = s.index_of(m);
                assert(s[i] == m);
            }
            if old_min is Some {
                let i = s.index_of(old_max->0);
                assert(s[i] == old_max->0);
            }
        }
        let mut mm = MinMax::Neither;
        core::mem::swap(&mut self.min_max, &mut mm);
        self.min_max = fold_extremes(&self.decay, mm, item);
        self.seen = Ghost(s.push(item));
        proof {
            let t = s.push(item);
            assert(t[s.len() as int] == item);
            assert(forall|i: int| 0 <= i < s.len() ==> t[i] == s[i]);
            assert(t.contains(item));
            if let Some(m) = old_min {
                let i = s.index_of(m);
                assert(t[i] == m);
            }
            if let Some(m) = old_max {
                let i = s.index_of(m);
                assert(t[i] == m);
            }
        }
    }

    fn reset(&mut self, landmark: u64) {
        self.decay.set_landmark(landmark);
        self.min_max = MinMax::Neither;
        self.seen = Ghost(Seq::empty());
    }
}

} // verus!
