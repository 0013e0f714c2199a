//! Decayed sum, count and average.
use vstd::prelude::*;
use vstd::arithmetic::power::{pow, lemma_pow_adds, lemma_pow_positive};
use crate::aggregate::Aggregator;
use crate::decay::{ForwardDecay, div_exact, lemma_with_landmark, mul_signed, normalizable, normalized};
use crate::g::{Exponential, Function};
use crate::item::Item;
use crate::ratio::{Ratio, ratio_eq};

verus! {

/// The sum of the weighted values `g(ti - R) * vi` of `items` under `fd`,
/// whose landmark is R.
pub open spec fn static_sum_of<G: Function, I: Item>(fd: ForwardDecay<G>, items: Seq<I>) -> int
    decreases items.len(),
{
    if items.len() == 0 {
        0
    } else {
        static_sum_of(fd, items.drop_last()) + fd.g_at(items.last().spec_timestamp()) * items.last().spec_value()
    }
}

/// The sum of the weights `g(ti - R)` of `items` under `fd`.
pub open spec fn static_count_of<G: Function, I: Item>(fd: ForwardDecay<G>, items: Seq<I>) -> int
    decreases items.len(),
{
    if items.len() == 0 {
        0
    } else {
        static_count_of(fd, items.drop_last()) + fd.g_at(items.last().spec_timestamp())
    }
}

/// `fd` with its reference time moved back to `t` when g is `b^a` and `t`
/// comes before it; otherwise `fd` itself.
pub open spec fn rebased<G: Function>(fd: ForwardDecay<G>, t: u64) -> ForwardDecay<G> {
    if fd.spec_g().spec_base() > 1 && t < fd.spec_landmark() {
        fd.with_landmark(t)
    } else {
        fd
    }
}

/// Decayed aggregate sum, count and average over a stream of items.
///
/// The totals are whole numbers kept against a reference time R: the sums
/// of `g(ti - R) * vi` and of `g(ti - R)`. A query divides them by the
/// normalizing factor `g(t - R)`. Where g is `b^a` (exponential decay) an
/// item before R moves R back to it, multiplying the totals exactly, and a
/// move of the landmark moves R forward as far as the earliest item allows,
/// dividing them exactly, so every decayed result is exact whatever
/// landmark the items were gathered under. For any other g, R is the
/// landmark.
pub struct BasicAggregator<G, I> {
    decay: ForwardDecay<G>,
    landmark: u64,
    sum: i128,
    count: u128,
    earliest: Option<u64>,
    items: Ghost<Seq<I>>,
}

impl<G: Function, I: Item> BasicAggregator<G, I> {
    /// The decay model against the reference time R.
    pub closed spec fn spec_decay(&self) -> ForwardDecay<G> {
        self.decay
    }

    /// The landmark L.
    pub closed spec fn spec_landmark(&self) -> u64 {
        self.landmark
    }

    /// The total of the weighted values against R.
    pub closed spec fn spec_sum(&self) -> int {
        self.sum as int
    }

    /// The total of the weights against R.
    pub closed spec fn spec_count(&self) -> int {
        self.count as int
    }

    /// The items added since the aggregator was made or reset.
    pub closed spec fn spec_items(&self) -> Seq<I> {
        self.items@
    }

    /// The earliest arrival among the items, if any.
    pub closed spec fn spec_earliest(&self) -> Option<u64> {
        self.earliest
    }

    /// An empty aggregator over `decay`, whose landmark is also R.
    pub fn new(decay: ForwardDecay<G>) -> (r: Self)
        requires
            decay.wf(),
        ensures
            r.inv(),
            r.spec_decay() == decay,
            r.spec_landmark() == decay.spec_landmark(),
            r.spec_items() == Seq::<I>::empty(),
            r.spec_sum() == 0,
            r.spec_count() == 0,
    {
        let landmark = decay.landmark();
        BasicAggregator { decay, landmark, sum: 0, count: 0, earliest: None, items: Ghost(Seq::empty()) }
    }

    /// The decayed sum at `timestamp`.
    pub fn sum(&self, timestamp: u64) -> (r: Ratio)
        requires
            self.inv(),
            normalizable(self.spec_decay(), self.spec_sum(), timestamp, i128::MIN as int, i128::MAX as int),
        ensures
            (r.num(), r.den()) == normalized(self.spec_decay(), self.spec_sum(), timestamp),
    {
        self.decay.normalize(self.sum, timestamp)
    }

    /// The total of the weighted values against R.
    pub fn static_sum(&self) -> (r: i128)
        ensures
            r == self.spec_sum(),
    {
        self.sum
    }

    /// The decayed count at `timestamp`.
    pub fn count(&self, timestamp: u64) -> (r: Ratio)
        requires
            self.inv(),
            normalizable(self.spec_decay(), self.spec_count(), timestamp, 0, u128::MAX as int),
        ensures
            (r.num(), r.den()) == normalized(self.spec_decay(), self.spec_count(), timestamp),
    {
        self.decay.normalize_unsigned(self.count, timestamp)
    }

    /// The total of the weights against R.
    pub fn static_count(&self) -> (r: u128)
        ensures
            r == self.spec_count(),
    {
        self.count
    }

    /// The decayed average, the same at every query time. Its denominator
    /// is zero, an undefined quotient, while no weight has been seen.
    pub fn average(&self) -> (r: Ratio)
        ensures
            r.num() == self.spec_sum(),
            r.den() == self.spec_count(),
    {
        Ratio::from_signed(self.sum, self.count)
    }

    /// The decay model against the reference time R.
    pub fn decay(&self) -> (r: &ForwardDecay<G>)
        ensures
            *r == self.spec_decay(),
    {
        &self.decay
    }

    /// The landmark L.
    pub fn landmark(&self) -> (r: u64)
        ensures
            r == self.spec_landmark(),
    {
        self.landmark
    }
}

impl<G: Function, I: Item> BasicAggregator<G, I> {
    /// Adds `item` to the totals.
    pub(crate) fn add(&mut self, item: &I)
        requires
            old(self).inv(),
            old(self).accepts(*item),
        ensures
            final(self).inv(),
            old(self).updated(*item, *final(self)),
    {
        let t = item.timestamp();
        let ghost items = self.items@;
        let ghost fd = rebased(self.decay, t);
        let b = self.decay.g().base();
        if b > 1 && t < self.decay.landmark() {
            let e = (self.decay.landmark() - t) as u128;
            proof {
                lemma_with_landmark(self.decay, t);
                lemma_rescale_totals(fd, self.decay, items);
                lemma_count_positive(self.decay, items);
                lemma_pow_positive(b as int, e as nat);
            }
            let (sum, count) = match crate::g::checked_pow(b as u128, e) {
                Some(f) => {
                    proof {
                        assert(static_count_of(fd, items) <= static_count_of(fd, items.push(*item))) by {
                            assert(items.push(*item).drop_last() =~= items);
                        }
                        assert(fd == self.decay.with_landmark(t));
                        assert(f == pow(self.decay.spec_g().spec_base() as int, (self.decay.spec_landmark() - fd.spec_landmark()) as nat));
                        assert(static_sum_of(fd, items) == f * self.sum);
                        assert(static_count_of(fd, items) == f * self.count);
                        assert(self.sum * f == f * self.sum && self.count * f == f * self.count) by (nonlinear_arith);
                    }
                    (mul_signed(self.sum, f), self.count * f)
                },
                None => {
                    proof {
                        assert(static_count_of(fd, items) <= static_count_of(fd, items.push(*item))) by {
                            assert(items.push(*item).drop_last() =~= items);
                        }
                        let p = pow(b as int, e as nat);
                        let c = self.count as int;
                        if c >= 1 {
                            assert(p <= p * c) by (nonlinear_arith)
                                requires
                                    c >= 1,
                                    p >= 1,
                            ;
                        }
                    }
                    (0i128, 0u128)
                },
            };
            self.sum = sum;
            self.count = count;
            self.decay.set_landmark(t);
            proof {
                assert forall|i: int| 0 <= i < items.len() implies (#[trigger] items[i]).spec_timestamp() >= t by {}
            }
        }
        proof {
            assert(items.push(*item).drop_last() =~= items);
            assert(items.push(*item).last() == *item);
        }
        let w = self.decay.static_weight(item);
        let v = self.decay.static_weighted_value(item);
        self.sum = self.sum + v;
        self.count = self.count + w as u128;
        let ghost e0 = self.earliest;
        self.earliest = match self.earliest {
            Some(e) => if t < e { Some(t) } else { Some(e) },
            None => Some(t),
        };
        self.items = Ghost(items.push(*item));
        proof {
            let next = items.push(*item);
            assert(next[items.len() as int] == *item);
            assert(forall|i: int| 0 <= i < items.len() ==> next[i] == items[i]);
            let t0 = item.spec_timestamp();
            match e0 {
                Some(e) => {
                    let w = choose|i: int| 0 <= i < items.len() && (#[trigger] items[i]).spec_timestamp() == e;
                    assert(next[w] == items[w]);
                    let ne = if t0 < e { t0 } else { e };
                    let wi = if t0 < e { items.len() as int } else { w };
                    assert(next[wi].spec_timestamp() == ne);
                    assert forall|i: int| 0 <= i < next.len() implies (#[trigger] next[i]).spec_timestamp() >= ne by {
                        if i < items.len() {
                            assert(next[i] == items[i]);
                        }
                    }
                },
                None => {
                    assert(next.len() == 1);
                    assert(next[0].spec_timestamp() == t0);
                    assert forall|i: int| 0 <= i < next.len() implies (#[trigger] next[i]).spec_timestamp() >= t0 by {}
                },
            }
            assert(next.drop_last() =~= items);
            assert(next.last() == *item);
            if fd.spec_g().spec_base() > 1 {
                assert forall|i: int| 0 <= i < next.len() implies (#[trigger] next[i]).spec_timestamp() >= fd.spec_landmark() by {
                    if i < items.len() {
                        assert(next[i] == items[i]);
                    }
                }
            }
        }
    }

}

impl<G: Function, I: Item> Aggregator for BasicAggregator<G, I> {
    type Item = I;

    open spec fn inv(&self) -> bool {
        let fd = self.spec_decay();
        let items = self.spec_items();
        &&& fd.wf()
        &&& fd.spec_g().spec_base() <= 1 ==> fd.spec_landmark() == self.spec_landmark()
        &&& fd.spec_g().spec_base() > 1 ==> forall|i: int| 0 <= i < items.len() ==> (#[trigger] items[i]).spec_timestamp() >= fd.spec_landmark()
        &&& self.spec_sum() == static_sum_of(fd, items)
        &&& self.spec_count() == static_count_of(fd, items)
        &&& (self.spec_earliest() is None <==> items.len() == 0)
        &&& self.spec_earliest() matches Some(e) ==> (exists|i: int| 0 <= i < items.len() && (#[trigger] items[i]).spec_timestamp() == e)
            && forall|i: int| 0 <= i < items.len() ==> (#[trigger] items[i]).spec_timestamp() >= e
    }

    open spec fn accepts(&self, item: I) -> bool {
        let fd = rebased(self.spec_decay(), item.spec_timestamp());
        let next = self.spec_items().push(item);
        &&& fd.fits_at(item.spec_timestamp())
        &&& i128::MIN <= static_sum_of(fd, self.spec_items()) <= i128::MAX
        &&& i128::MIN <= static_sum_of(fd, next) <= i128::MAX
        &&& static_count_of(fd, next) <= u128::MAX
    }

    open spec fn updated(&self, item: I, next: Self) -> bool {
        let fd = rebased(self.spec_decay(), item.spec_timestamp());
        &&& next.spec_decay() == fd
        &&& next.spec_landmark() == self.spec_landmark()
        &&& next.spec_items() == self.spec_items().push(item)
        &&& next.spec_sum() == static_sum_of(fd, self.spec_items()) + fd.g_at(item.spec_timestamp()) * item.spec_value()
        &&& next.spec_count() == static_count_of(fd, self.spec_items()) + fd.g_at(item.spec_timestamp())
    }

    open spec fn emptied(&self, landmark: u64, next: Self) -> bool {
        &&& next.spec_decay() == self.spec_decay().with_landmark(landmark)
        &&& next.spec_landmark() == landmark
        &&& next.spec_items() == Seq::<I>::empty()
        &&& next.spec_sum() == 0
        &&& next.spec_count() == 0
    }

    fn update(&mut self, item: I) {
        self.add(&item);
    }

    fn reset(&mut self, landmark: u64) {
        self.decay.set_landmark(landmark);
        self.landmark = landmark;
        self.sum = 0;
        self.count = 0;
        self.earliest = None;
        self.items = Ghost(Seq::empty());
    }
}

impl<G: Function, I: Item> BasicAggregator<G, I> {
    /// Moves the landmark only, keeping the reference time and the totals.
    pub(crate) fn move_landmark(&mut self, landmark: u64)
        requires
            old(self).inv(),
            old(self).spec_decay().spec_g().spec_base() > 1,
        ensures
            final(self).inv(),
            final(self).spec_landmark() == landmark,
            final(self).spec_decay() == old(self).spec_decay(),
            final(self).spec_items() == old(self).spec_items(),
            final(self).spec_sum() == old(self).spec_sum(),
            final(self).spec_count() == old(self).spec_count(),
    {
        self.landmark = landmark;
    }
}

/// The reference time that a landmark move to `landmark` settles on: the
/// landmark or the earliest item, whichever comes first, but never before
/// the current reference time.
pub open spec fn settled_reference<G: Function, I: Item>(a: BasicAggregator<G, I>, landmark: u64) -> u64 {
    let r = a.spec_decay().spec_landmark();
    let target = match a.spec_earliest() {
        Some(e) => if landmark < e { landmark } else { e },
        None => landmark,
    };
    if target > r { target } else { r }
}

impl<I: Item> BasicAggregator<Exponential, I> {
    /// Moves the landmark to `landmark`, earlier or later. The reference
    /// time moves forward to the new landmark or the earliest item,
    /// whichever comes first, and the totals are divided exactly by the
    /// rescale factor `g(R' - R)`; this keeps them small while every decayed
    /// result stays that of accumulating the same items from scratch under
    /// the new landmark (see `lemma_rescale_invariance`).
    pub fn update_landmark(&mut self, landmark: u64)
        requires
            old(self).inv(),
        ensures
            final(self).inv(),
            final(self).spec_landmark() == landmark,
            final(self).spec_decay() == old(self).spec_decay().with_landmark(settled_reference(*old(self), landmark)),
            final(self).spec_items() == old(self).spec_items(),
    {
        let ghost pre = *self;
        let ghost items = self.items@;
        self.landmark = landmark;
        let r: u64 = self.decay.landmark();
        let target: u64 = match self.earliest {
            Some(e) => if landmark < e { landmark } else { e },
            None => landmark,
        };
        proof {
            lemma_with_landmark(self.decay, r);
            assert(self.decay.with_landmark(r) == self.decay);
        }
        if target > r {
            let ghost fd2 = self.decay.with_landmark(target);
            let b: u64 = Function::base(self.decay.g());
            let e: u128 = (target - r) as u128;
            proof {
                lemma_with_landmark(self.decay, target);
                assert forall|i: int| 0 <= i < items.len() implies (#[trigger] items[i]).spec_timestamp() >= target by {}
                lemma_rescale_totals(self.decay, fd2, items);
                lemma_count_positive(fd2, items);
                lemma_pow_positive(b as int, (target - r) as nat);
            }
            match crate::g::checked_pow(b as u128, e) {
                Some(f) => {
                    proof {
                        vstd::arithmetic::div_mod::lemma_div_multiples_vanish(static_count_of(fd2, items), f as int);
                    }
                    self.sum = div_exact(self.sum, f, Ghost(static_sum_of(fd2, items)));
                    self.count = self.count / f;
                },
                None => {
                    proof {
                        let c2 = static_count_of(fd2, items);
                        let p = pow(b as int, (target - r) as nat);
                        if items.len() > 0 {
                            assert(p <= p * c2) by (nonlinear_arith)
                                requires
                                    c2 >= 1,
                                    p >= 1,
                            ;
                        }
                        assert(items.len() == 0);
                    }
                },
            }
            self.decay.set_landmark(target);
            proof {
                assert(self.decay == fd2);
                assert(self.sum == static_sum_of(fd2, items));
                assert(self.count == static_count_of(fd2, items));
                assert(fd2.wf());
            }
        }
    }
}

/// While g is `b^a`, some weight of an item is positive: a non-empty
/// stream has a positive count.
proof fn lemma_count_positive<G: Function, I: Item>(fd: ForwardDecay<G>, items: Seq<I>)
    requires
        fd.wf(),
        fd.spec_g().spec_base() > 1,
        forall|i: int| 0 <= i < items.len() ==> (#[trigger] items[i]).spec_timestamp() >= fd.spec_landmark(),
    ensures
        static_count_of(fd, items) >= items.len(),
        items.len() > 0 ==> static_count_of(fd, items) >= 1,
    decreases items.len(),
{
    if items.len() > 0 {
        let init = items.drop_last();
        assert forall|i: int| 0 <= i < init.len() implies (#[trigger] init[i]).spec_timestamp() >= fd.spec_landmark() by {
            assert(init[i] == items[i]);
        }
        lemma_count_positive(fd, init);
        let x = items.last();
        assert(x == items[items.len() - 1]);
        let a = (x.spec_timestamp() - fd.spec_landmark()) as i128;
        fd.spec_g().lemma_base(a);
        lemma_pow_positive(fd.spec_g().spec_base() as int, a as nat);
    }
}

/// Where g is `b^a`, the totals of items that all arrived no earlier than
/// the later of two reference times R1 <= R2 are, against R1, those against
/// R2 times `b^(R2 - R1)`.
pub proof fn lemma_rescale_totals<G: Function, I: Item>(fd: ForwardDecay<G>, fd2: ForwardDecay<G>, items: Seq<I>)
    requires
        fd.wf(),
        fd.spec_g().spec_base() > 1,
        fd2.spec_g() == fd.spec_g(),
        fd.spec_landmark() <= fd2.spec_landmark(),
        forall|i: int| 0 <= i < items.len() ==> (#[trigger] items[i]).spec_timestamp() >= fd2.spec_landmark(),
    ensures
        ({
            let f = pow(fd.spec_g().spec_base() as int, (fd2.spec_landmark() - fd.spec_landmark()) as nat);
            &&& static_sum_of(fd, items) == f * static_sum_of(fd2, items)
            &&& static_count_of(fd, items) == f * static_count_of(fd2, items)
        }),
    decreases items.len(),
{
    let b = fd.spec_g().spec_base() as int;
    let e = (fd2.spec_landmark() - fd.spec_landmark()) as nat;
    let f = pow(b, e);
    if items.len() > 0 {
        let init = items.drop_last();
        assert forall|i: int| 0 <= i < init.len() implies (#[trigger] init[i]).spec_timestamp() >= fd2.spec_landmark() by {
            assert(init[i] == items[i]);
        }
        lemma_rescale_totals(fd, fd2, init);
        let x = items.last();
        assert(x == items[items.len() - 1]);
        let a2 = (x.spec_timestamp() - fd2.spec_landmark()) as nat;
        let age = (x.spec_timestamp() - fd.spec_landmark()) as i128;
        let age2 = (x.spec_timestamp() - fd2.spec_landmark()) as i128;
        fd.spec_g().lemma_base(age);
        fd.spec_g().lemma_base(age2);
        lemma_pow_adds(b, a2, e);
        assert(age as nat == a2 + e);
        let p2 = pow(b, a2);
        assert(p2 * f == f * p2) by (nonlinear_arith);
        assert(fd.g_at(x.spec_timestamp()) == f * fd2.g_at(x.spec_timestamp()));
        let w2 = fd2.g_at(x.spec_timestamp()) as int;
        let v = x.spec_value() as int;
        let s2 = static_sum_of(fd2, init);
        let c2 = static_count_of(fd2, init);
        assert(f * s2 + (f * w2) * v == f * (s2 + w2 * v)) by (nonlinear_arith);
        assert(f * c2 + f * w2 == f * (c2 + w2)) by (nonlinear_arith);
    }
}

/// Totals related by the factor between two reference times give the same
/// normalized value at every time.
pub proof fn lemma_normalized_shift<G: Function>(lo: ForwardDecay<G>, hi: ForwardDecay<G>, n: int, t: u64)
    requires
        lo.wf(),
        lo.spec_g().spec_base() > 1,
        hi.spec_g() == lo.spec_g(),
        lo.spec_landmark() <= hi.spec_landmark(),
    ensures
        ratio_eq(
            normalized(lo, pow(lo.spec_g().spec_base() as int, (hi.spec_landmark() - lo.spec_landmark()) as nat) * n, t),
            normalized(hi, n, t),
        ),
{
    let b = lo.spec_g().spec_base() as int;
    let rl = lo.spec_landmark();
    let rh = hi.spec_landmark();
    let d = (rh - rl) as nat;
    let f = pow(b, d);
    if t >= rh {
        let eh = (t - rh) as nat;
        lo.spec_g().lemma_base((t - rl) as i128);
        lo.spec_g().lemma_base((t - rh) as i128);
        lemma_pow_adds(b, d, eh);
        assert((t - rl) as nat == d + eh);
        let ph = pow(b, eh);
        assert((f * n) * ph == n * (f * ph)) by (nonlinear_arith);
    } else if t >= rl {
        let el = (t - rl) as nat;
        let eh = (rh - t) as nat;
        lo.spec_g().lemma_base((t - rl) as i128);
        lemma_pow_adds(b, eh, el);
        assert(d == eh + el);
        let (pe, pl) = (pow(b, eh), pow(b, el));
        assert((f * n) * 1 == (n * pe) * pl) by (nonlinear_arith)
            requires
                f == pe * pl,
        ;
    } else {
        let el = (rl - t) as nat;
        let eh = (rh - t) as nat;
        lemma_pow_adds(b, d, el);
        assert(eh == d + el);
        let pl = pow(b, el);
        assert((f * n) * pl * 1 == (n * pow(b, eh)) * 1) by (nonlinear_arith)
            requires
                pow(b, eh) == f * pl,
        ;
    }
}

/// Rescaling is exact: where g is `b^a` (exponential decay), two aggregators
/// that saw the same items, whatever their landmarks and whatever landmark
/// moves they went through, give the same decayed sum and count at every
/// time, and the same average.
pub proof fn lemma_rescale_invariance<G: Function, I: Item>(a: BasicAggregator<G, I>, b: BasicAggregator<G, I>, t: u64)
    requires
        a.inv(),
        b.inv(),
        a.spec_decay().spec_g() == b.spec_decay().spec_g(),
        a.spec_decay().spec_g().spec_base() > 1,
        a.spec_items() == b.spec_items(),
    ensures
        ratio_eq(normalized(a.spec_decay(), a.spec_sum(), t), normalized(b.spec_decay(), b.spec_sum(), t)),
        ratio_eq(normalized(a.spec_decay(), a.spec_count(), t), normalized(b.spec_decay(), b.spec_count(), t)),
        ratio_eq((a.spec_sum(), a.spec_count()), (b.spec_sum(), b.spec_count())),
{
    let (fa, fb) = (a.spec_decay(), b.spec_decay());
    let items = a.spec_items();
    if fa.spec_landmark() <= fb.spec_landmark() {
        lemma_rescale_totals(fa, fb, items);
        lemma_normalized_shift(fa, fb, b.spec_sum(), t);
        lemma_normalized_shift(fa, fb, b.spec_count(), t);
        let f = pow(fa.spec_g().spec_base() as int, (fb.spec_landmark() - fa.spec_landmark()) as nat);
        assert((f * b.spec_sum()) * b.spec_count() == b.spec_sum() * (f * b.spec_count())) by (nonlinear_arith);
    } else {
        lemma_rescale_totals(fb, fa, items);
        lemma_normalized_shift(fb, fa, a.spec_sum(), t);
        lemma_normalized_shift(fb, fa, a.spec_count(), t);
        let f = pow(fb.spec_g().spec_base() as int, (fa.spec_landmark() - fb.spec_landmark()) as nat);
        assert(a.spec_sum() * (f * a.spec_count()) == (f * a.spec_sum()) * a.spec_count()) by (nonlinear_arith);
    }
}

} // verus!
