//! Decayed sum, count, average, minimum and maximum in one aggregate.
use vstd::prelude::*;
use vstd::arithmetic::power::{pow, lemma_pow_adds, lemma_pow_positive};
use crate::aggregate::Aggregator;
use crate::aggregate::basic::{BasicAggregator, rebased, settled_reference};
use crate::aggregate::minmax::{MinMax, extended, fold_extremes, static_value};
use crate::decay::{ForwardDecay, lemma_with_landmark, normalizable, normalized};
use crate::g::{Exponential, Function};
use crate::item::Item;
use crate::ratio::Ratio;

verus! {

/// Decay-aware sum, count, average, minimum and maximum over a stream: each
/// item's contribution is scaled by its weight. The sums are those of a
/// [`BasicAggregator`]; the extremes are compared by their weighted values
/// against its reference time, an order that no landmark move changes.
pub struct ArithmeticAggregation<G, I> {
    basic: BasicAggregator<G, I>,
    min_max: MinMax<I>,
}

/// Moving the reference time back multiplies every weighted value of an
/// item after it by the same factor.
proof fn lemma_rebased_value<G: Function, I: Item>(fd: ForwardDecay<G>, t: u64, x: I)
    requires
        fd.wf(),
        fd.spec_g().spec_base() > 1,
        t < fd.spec_landmark() <= x.spec_timestamp(),
    ensures
        static_value(fd.with_landmark(t), x) == pow(fd.spec_g().spec_base() as int, (fd.spec_landmark() - t) as nat) * static_value(fd, x),
        fd.with_landmark(t).g_at(x.spec_timestamp()) >= fd.g_at(x.spec_timestamp()),
{
    lemma_with_landmark(fd, t);
    let b = fd.spec_g().spec_base() as int;
    let e = (fd.spec_landmark() - t) as nat;
    let a = (x.spec_timestamp() - fd.spec_landmark()) as nat;
    fd.spec_g().lemma_base((x.spec_timestamp() - fd.spec_landmark()) as i128);
    fd.spec_g().lemma_base((x.spec_timestamp() - t) as i128);
    lemma_pow_adds(b, e, a);
    assert((x.spec_timestamp() - t) as nat == e + a);
    lemma_pow_positive(b, e);
    lemma_pow_positive(b, a);
    let (pe, pa) = (pow(b, e), pow(b, a));
    let v = x.spec_value() as int;
    assert((pe * pa) * v == pe * (pa * v) && pa <= pe * pa) by (nonlinear_arith)
        requires
            pe >= 1,
            pa >= 1,
    ;
}

/// `x` is one of `items`, and its weighted value under `fd` is at most
/// (`lowest`) or at least that of each of them.
pub open spec fn extreme_of<G: Function, I: Item>(fd: ForwardDecay<G>, items: Seq<I>, x: I, lowest: bool) -> bool {
    &&& items.contains(x)
    &&& forall|i: int| 0 <= i < items.len() ==> if lowest {
        static_value(fd, x) <= static_value(fd, #[trigger] items[i])
    } else {
        static_value(fd, x) >= static_value(fd, #[trigger] items[i])
    }
}

/// Weighted values of items that all scale by one positive factor keep
/// their order, so an extreme stays an extreme.
proof fn lemma_extreme_scaled<G: Function, I: Item>(fd: ForwardDecay<G>, fd2: ForwardDecay<G>, items: Seq<I>, x: I, lowest: bool, f: int, f2: int)
    requires
        f >= 1,
        f2 >= 1,
        extreme_of(fd, items, x, lowest),
        static_value(fd2, x) * f == static_value(fd, x) * f2,
        forall|i: int| 0 <= i < items.len() ==> static_value(fd2, #[trigger] items[i]) * f == static_value(fd, items[i]) * f2,
    ensures
        extreme_of(fd2, items, x, lowest),
{
    assert forall|i: int| 0 <= i < items.len() implies if lowest {
        static_value(fd2, x) <= static_value(fd2, #[trigger] items[i])
    } else {
        static_value(fd2, x) >= static_value(fd2, items[i])
    } by {
        let (a, c) = (static_value(fd2, x), static_value(fd2, items[i]));
        let (a0, c0) = (static_value(fd, x), static_value(fd, items[i]));
        if lowest {
            assert(a0 * f2 <= c0 * f2) by (nonlinear_arith)
                requires
                    a0 <= c0,
                    f2 >= 1,
            ;
            assert(a <= c) by (nonlinear_arith)
                requires
                    a * f <= c * f,
                    f >= 1,
            ;
        } else {
            assert(a0 * f2 >= c0 * f2) by (nonlinear_arith)
                requires
                    a0 >= c0,
                    f2 >= 1,
            ;
            assert(a >= c) by (nonlinear_arith)
                requires
                    a * f >= c * f,
                    f >= 1,
            ;
        }
    }
}

impl<G: Function, I: Item> ArithmeticAggregation<G, I> {
    /// The sums.
    pub closed spec fn spec_basic(&self) -> BasicAggregator<G, I> {
        self.basic
    }

    /// The item of least weighted value, if any.
    pub closed spec fn spec_min(&self) -> Option<I> {
        self.min_max.spec_min()
    }

    /// The item of greatest weighted value, if any.
    pub closed spec fn spec_max(&self) -> Option<I> {
        self.min_max.spec_max()
    }

    /// The invariant: valid sums, and extremes that are both present or both
    /// absent, weighable, in order, and not before the reference time.
    pub open spec fn inv(&self) -> bool {
        let fd = self.spec_basic().spec_decay();
        let exp = fd.spec_g().spec_base() > 1;
        &&& self.spec_basic().inv()
        &&& (self.spec_min() is None <==> self.spec_max() is None)
        &&& self.spec_min() matches Some(x) ==> fd.fits_at(x.spec_timestamp()) && (exp ==> x.spec_timestamp() >= fd.spec_landmark())
        &&& self.spec_max() matches Some(x) ==> fd.fits_at(x.spec_timestamp()) && (exp ==> x.spec_timestamp() >= fd.spec_landmark())
        &&& self.spec_min() is Some ==> static_value(fd, self.spec_min()->0) <= static_value(fd, self.spec_max()->0)
        &&& (self.spec_min() is None <==> self.spec_basic().spec_items().len() == 0)
        &&& self.spec_min() matches Some(x) ==> extreme_of(fd, self.spec_basic().spec_items(), x, true)
        &&& self.spec_max() matches Some(x) ==> extreme_of(fd, self.spec_basic().spec_items(), x, false)
    }

    /// An empty aggregate over `decay`.
    pub fn new(decay: ForwardDecay<G>) -> (r: Self)
        requires
            decay.wf(),
        ensures
            r.inv(),
            r.spec_basic().spec_decay() == decay,
            r.spec_basic().spec_landmark() == decay.spec_landmark(),
            r.spec_basic().spec_items() == Seq::<I>::empty(),
            r.spec_basic().spec_sum() == 0,
            r.spec_basic().spec_count() == 0,
            r.spec_min() is None,
    {
        ArithmeticAggregation { basic: BasicAggregator::new(decay), min_max: MinMax::Neither }
    }

    /// Adds `item`: its weighted value to the sum, its weight to the count,
    /// and it replaces the minimum (maximum) when its weighted value is
    /// below (above) it.
    pub fn update(&mut self, item: I)
        requires
            old(self).inv(),
            old(self).spec_basic().accepts(item),
            ({
                let fd = rebased(old(self).spec_basic().spec_decay(), item.spec_timestamp());
                &&& old(self).spec_min() matches Some(x) ==> fd.fits_at(x.spec_timestamp())
                &&& old(self).spec_max() matches Some(x) ==> fd.fits_at(x.spec_timestamp())
            }),
        ensures
            final(self).inv(),
            old(self).spec_basic().updated(item, final(self).spec_basic()),
            ({
                let fd = rebased(old(self).spec_basic().spec_decay(), item.spec_timestamp());
                &&& final(self).spec_min() == extended(fd, old(self).spec_min(), item, true)
                &&& final(self).spec_max() == extended(fd, old(self).spec_max(), item, false)
            }),
    {
        let ghost old_fd = self.basic.spec_decay();
        let ghost min0 = self.min_max.spec_min();
        let ghost max0 = self.min_max.spec_max();
        let ghost t = item.spec_timestamp();
        proof {
            if old_fd.spec_g().spec_base() > 1 && t < old_fd.spec_landmark() {
                lemma_with_landmark(old_fd, t);
                if let Some(x) = min0 {
                    lemma_rebased_value(old_fd, t, x);
                }
                if let Some(x) = max0 {
                    lemma_rebased_value(old_fd, t, x);
                }
                if min0 is Some {
                    let f = pow(old_fd.spec_g().spec_base() as int, (old_fd.spec_landmark() - t) as nat);
                    lemma_pow_positive(old_fd.spec_g().spec_base() as int, (old_fd.spec_landmark() - t) as nat);
                    let (a, c) = (static_value(old_fd, min0->0), static_value(old_fd, max0->0));
                    assert(f * a <= f * c) by (nonlinear_arith)
                        requires
                            f >= 1,
                            a <= c,
                    ;
                }
            }
        }
        let ghost items = self.basic.spec_items();
        let ghost fd2 = rebased(old_fd, t);
        let ghost f: int = if old_fd.spec_g().spec_base() > 1 && t < old_fd.spec_landmark() {
            pow(old_fd.spec_g().spec_base() as int, (old_fd.spec_landmark() - t) as nat)
        } else {
            1
        };
        proof {
            if old_fd.spec_g().spec_base() > 1 && t < old_fd.spec_landmark() {
                lemma_pow_positive(old_fd.spec_g().spec_base() as int, (old_fd.spec_landmark() - t) as nat);
                assert forall|i: int| 0 <= i < items.len() implies static_value(fd2, #[trigger] items[i]) * 1 == static_value(old_fd, items[i]) * f by {
                    lemma_rebased_value(old_fd, t, items[i]);
                    let v = static_value(old_fd, items[i]);
                    assert(f * v == v * f) by (nonlinear_arith);
                }
            }
            if let Some(x) = min0 {
                let k = items.index_of(x);
                assert(static_value(fd2, items[k]) * 1 == static_value(old_fd, items[k]) * f);
                lemma_extreme_scaled(old_fd, fd2, items, x, true, 1, f);
            }
            if let Some(x) = max0 {
                let k = items.index_of(x);
                assert(static_value(fd2, items[k]) * 1 == static_value(old_fd, items[k]) * f);
                lemma_extreme_scaled(old_fd, fd2, items, x, false, 1, f);
            }
        }
        self.basic.add(&item);
        let mut mm = MinMax::Neither;
        core::mem::swap(&mut self.min_max, &mut mm);
        self.min_max = fold_extremes(self.basic.decay(), mm, item);
        proof {
            let next = items.push(item);
            assert(self.basic.spec_items() == next);
            assert(next[items.len() as int] == item);
            assert(forall|i: int| 0 <= i < items.len() ==> next[i] == items[i]);
            assert(next.contains(item));
            if let Some(x) = min0 {
                let k = items.index_of(x);
                assert(next[k] == x);
            }
            if let Some(x) = max0 {
                let k = items.index_of(x);
                assert(next[k] == x);
            }
            assert forall|i: int| 0 <= i < next.len() implies static_value(fd2, self.spec_min()->0) <= static_value(fd2, #[trigger] next[i]) by {
                if i < items.len() {
                    assert(next[i] == items[i]);
                }
            }
            assert forall|i: int| 0 <= i < next.len() implies static_value(fd2, self.spec_max()->0) >= static_value(fd2, #[trigger] next[i]) by {
                if i < items.len() {
                    assert(next[i] == items[i]);
                }
            }
        }
    }

    /// The decayed sum at `timestamp`.
    pub fn sum(&self, timestamp: u64) -> (r: Ratio)
        requires
            self.inv(),
            normalizable(self.spec_basic().spec_decay(), self.spec_basic().spec_sum(), timestamp, i128::MIN as int, i128::MAX as int),
        ensures
            (r.num(), r.den()) == normalized(self.spec_basic().spec_decay(), self.spec_basic().spec_sum(), timestamp),
    {
        self.basic.sum(timestamp)
    }

    /// The decayed count at `timestamp`.
    pub fn count(&self, timestamp: u64) -> (r: Ratio)
        requires
            self.inv(),
            normalizable(self.spec_basic().spec_decay(), self.spec_basic().spec_count(), timestamp, 0, u128::MAX as int),
        ensures
            (r.num(), r.den()) == normalized(self.spec_basic().spec_decay(), self.spec_basic().spec_count(), timestamp),
    {
        self.basic.count(timestamp)
    }

    /// The decayed average; its denominator is zero before any weight.
    pub fn average(&self) -> (r: Ratio)
        ensures
            r.num() == self.spec_basic().spec_sum(),
            r.den() == self.spec_basic().spec_count(),
    {
        self.basic.average()
    }

    /// The item of least weighted value, or `None` before any item.
    pub fn min(&self) -> (r: Option<&I>)
        ensures
            r is None <==> self.spec_min() is None,
            r matches Some(x) ==> self.spec_min() == Some(*x),
    {
        match &self.min_max {
            MinMax::Neither => None,
            MinMax::Same(x) => Some(x),
            MinMax::Both(x, _) => Some(x),
        }
    }

    /// The item of greatest weighted value, or `None` before any item.
    pub fn max(&self) -> (r: Option<&I>)
        ensures
            r is None <==> self.spec_max() is None,
            r matches Some(x) ==> self.spec_max() == Some(*x),
    {
        match &self.min_max {
            MinMax::Neither => None,
            MinMax::Same(x) => Some(x),
            MinMax::Both(_, x) => Some(x),
        }
    }

    /// The decayed value `weight(min, t) * value(min)` of the minimum at
    /// `timestamp`, weighed against the reference time, or `None` before
    /// any item.
    pub fn min_at(&self, timestamp: u64) -> (r: Option<Ratio>)
        requires
            self.inv(),
            timestamp > self.spec_basic().spec_decay().spec_landmark() ==> self.spec_basic().spec_decay().fits_at(timestamp),
        ensures
            r is None <==> self.spec_min() is None,
            r matches Some(q) ==> (q.num(), q.den()) == self.spec_basic().spec_decay().spec_decayed_value(
                self.spec_min()->0.spec_timestamp(), self.spec_min()->0.spec_value(), timestamp),
    {
        match self.min() {
            Some(x) => Some(self.basic.decay().decayed_value(x, timestamp)),
            None => None,
        }
    }

    /// The decayed value `weight(max, t) * value(max)` of the maximum at
    /// `timestamp`, weighed against the reference time, or `None` before
    /// any item.
    pub fn max_at(&self, timestamp: u64) -> (r: Option<Ratio>)
        requires
            self.inv(),
            timestamp > self.spec_basic().spec_decay().spec_landmark() ==> self.spec_basic().spec_decay().fits_at(timestamp),
        ensures
            r is None <==> self.spec_max() is None,
            r matches Some(q) ==> (q.num(), q.den()) == self.spec_basic().spec_decay().spec_decayed_value(
                self.spec_max()->0.spec_timestamp(), self.spec_max()->0.spec_value(), timestamp),
    {
        match self.max() {
            Some(x) => Some(self.basic.decay().decayed_value(x, timestamp)),
            None => None,
        }
    }

    /// The decay model against the reference time.
    pub fn decay(&self) -> (r: &ForwardDecay<G>)
        ensures
            *r == self.spec_basic().spec_decay(),
    {
        self.basic.decay()
    }

    /// The landmark.
    pub fn landmark(&self) -> (r: u64)
        ensures
            r == self.spec_basic().spec_landmark(),
    {
        self.basic.landmark()
    }

    /// Empties the aggregate and moves its landmark to `landmark`.
    pub fn reset(&mut self, landmark: u64)
        requires
            old(self).inv(),
        ensures
            final(self).inv(),
            old(self).spec_basic().emptied(landmark, final(self).spec_basic()),
            final(self).spec_min() is None,
    {
        self.basic.reset(landmark);
        self.min_max = MinMax::Neither;
    }
}

impl<I: Item> ArithmeticAggregation<Exponential, I> {
    /// Moves the landmark to `landmark`, earlier or later, rescaling the
    /// sums exactly as [`BasicAggregator::update_landmark`] does. The
    /// extremes stay: every weighted value shrinks by the same factor.
    pub fn update_landmark(&mut self, landmark: u64)
        requires
            old(self).inv(),
        ensures
            final(self).inv(),
            final(self).spec_basic().spec_landmark() == landmark,
            final(self).spec_basic().spec_decay() == old(self).spec_basic().spec_decay().with_landmark(
                settled_reference(old(self).spec_basic(), landmark)),
            final(self).spec_basic().spec_items() == old(self).spec_basic().spec_items(),
            final(self).spec_min() == old(self).spec_min(),
            final(self).spec_max() == old(self).spec_max(),
    {
        let ghost fd = self.basic.spec_decay();
        let ghost items = self.basic.spec_items();
        let ghost rr = settled_reference(self.basic, landmark);
        let ghost min0 = self.min_max.spec_min();
        let ghost max0 = self.min_max.spec_max();
        self.basic.update_landmark(landmark);
        proof {
            let fd2 = fd.with_landmark(rr);
            lemma_with_landmark(fd, rr);
            assert(self.basic.spec_decay() == fd2);
            if rr > fd.spec_landmark() {
                let f = pow(fd.spec_g().spec_base() as int, (rr - fd.spec_landmark()) as nat);
                lemma_pow_positive(fd.spec_g().spec_base() as int, (rr - fd.spec_landmark()) as nat);
                lemma_with_landmark(fd2, fd.spec_landmark());
                assert(fd2.with_landmark(fd.spec_landmark()) == fd) by {
                    lemma_with_landmark(fd, fd.spec_landmark());
                }
                let e = self.basic.spec_earliest()->0;
                assert forall|i: int| 0 <= i < items.len() implies static_value(fd2, #[trigger] items[i]) * f == static_value(fd, items[i]) * 1
                    && fd2.g_at(items[i].spec_timestamp()) <= fd.g_at(items[i].spec_timestamp()) by {
                    assert(items[i].spec_timestamp() >= e);
                    lemma_rebased_value(fd2, fd.spec_landmark(), items[i]);
                    let v = static_value(fd2, items[i]);
                    assert(f * v == v * f) by (nonlinear_arith);
                }
                if let Some(x) = min0 {
                    let k = items.index_of(x);
                    assert(static_value(fd2, items[k]) * f == static_value(fd, items[k]) * 1);
                    lemma_extreme_scaled(fd, fd2, items, x, true, f, 1);
                }
                if let Some(x) = max0 {
                    let k = items.index_of(x);
                    assert(static_value(fd2, items[k]) * f == static_value(fd, items[k]) * 1);
                    lemma_extreme_scaled(fd, fd2, items, x, false, f, 1);
                    if let Some(y) = min0 {
                        let j = items.index_of(y);
                        assert(items[j] == y);
                    }
                }
            } else {
                assert(rr == fd.spec_landmark());
            }
        }
    }
}

} // verus!
