//! The forward decay model: a landmark and a weighting function g.
use vstd::prelude::*;
use crate::g::Function;
use crate::item::Item;
use crate::ratio::{Ratio, ratio_le};
use vstd::arithmetic::power::pow;

verus! {

/// Forward decay relative to a landmark L: an item that arrived at `ti`,
/// observed at `t > L`, has weight `g(ti - L) / g(t - L)`. Totals of the
/// landmark-relative ("static") weights `g(ti - L)` can be kept as items
/// arrive and divided by the normalizing factor `g(t - L)` at query time.
pub struct ForwardDecay<G> {
    landmark: u64,
    g: G,
}

impl<G: Function> ForwardDecay<G> {
    pub closed spec fn spec_landmark(&self) -> u64 {
        self.landmark
    }

    pub closed spec fn spec_g(&self) -> G {
        self.g
    }

    /// This model with its landmark moved to `landmark`.
    pub closed spec fn with_landmark(self, landmark: u64) -> Self {
        ForwardDecay { landmark, g: self.g }
    }

    /// The weighting function is a valid one.
    pub open spec fn wf(&self) -> bool {
        self.spec_g().valid()
    }

    /// g of the age of `timestamp` relative to the landmark.
    pub open spec fn g_at(&self, timestamp: u64) -> nat {
        self.spec_g().spec_invoke((timestamp - self.spec_landmark()) as i128)
    }

    /// g at `timestamp` can be held as a `u64` weight.
    pub open spec fn fits_at(&self, timestamp: u64) -> bool {
        self.g_at(timestamp) <= u64::MAX
    }

    /// The decayed weight at time `t` of an item that arrived at `ti`, as a
    /// numerator and a denominator; zero when `t` is not after the landmark
    /// or the item arrived before it.
    pub open spec fn spec_weight(&self, ti: u64, t: u64) -> (int, int) {
        if t <= self.spec_landmark() || ti < self.spec_landmark() {
            (0, 1)
        } else {
            (self.g_at(ti) as int, self.g_at(t) as int)
        }
    }

    /// A model with the given landmark and weighting function.
    pub fn new(landmark: u64, g: G) -> (r: Self)
        requires
            g.valid(),
        ensures
            r.spec_landmark() == landmark,
            r.spec_g() == g,
            r.wf(),
    {
        ForwardDecay { landmark, g }
    }

    /// The weighting function of this model.
    pub fn g(&self) -> (r: &G)
        ensures
            *r == self.spec_g(),
    {
        &self.g
    }

    /// The landmark of this model.
    pub fn landmark(&self) -> (r: u64)
        ensures
            r == self.spec_landmark(),
    {
        self.landmark
    }

    /// Moves the landmark to `landmark` and returns its signed age relative
    /// to the previous landmark. Totals kept against the previous landmark
    /// must be rescaled by the caller.
    pub fn set_landmark(&mut self, landmark: u64) -> (r: i128)
        ensures
            r == landmark - old(self).spec_landmark(),
            final(self).spec_landmark() == landmark,
            final(self).spec_g() == old(self).spec_g(),
            *final(self) == old(self).with_landmark(landmark),
    {
        let age = landmark as i128 - self.landmark as i128;
        self.landmark = landmark;
        age
    }

    /// Whether the static weight of an item arriving at `timestamp` fits in
    /// a `u64`.
    pub fn fits(&self, timestamp: u64) -> (r: bool)
        requires
            self.wf(),
        ensures
            r == self.fits_at(timestamp),
    {
        self.g.fits(timestamp as i128 - self.landmark as i128)
    }

    /// The decayed weight `g(ti - L) / g(t - L)` of `item` at `timestamp`;
    /// zero when `timestamp` is not after the landmark or the item arrived
    /// before it.
    pub fn weight<I: Item>(&self, item: &I, timestamp: u64) -> (r: Ratio)
        requires
            self.wf(),
            timestamp > self.spec_landmark() && item.spec_timestamp() >= self.spec_landmark()
                ==> self.fits_at(item.spec_timestamp()) && self.fits_at(timestamp),
        ensures
            (r.num(), r.den()) == self.spec_weight(item.spec_timestamp(), timestamp),
    {
        if timestamp <= self.landmark || item.timestamp() < self.landmark {
            return Ratio::from_unsigned(0, 1);
        }
        let numerator = self.g.invoke(item.age(self.landmark));
        let denominator = self.g.invoke(timestamp as i128 - self.landmark as i128);
        Ratio::from_unsigned(numerator as u128, denominator as u128)
    }

    /// The landmark-relative weight `g(ti - L)` of `item`, which does not
    /// depend on the query time.
    pub fn static_weight<I: Item>(&self, item: &I) -> (r: u64)
        requires
            self.wf(),
            self.fits_at(item.spec_timestamp()),
        ensures
            r == self.g_at(item.spec_timestamp()),
    {
        self.g.invoke(item.age(self.landmark))
    }

    /// The decayed value `weight(item, t) * vi` of `item` at `timestamp`,
    /// as a numerator and a denominator; zero when `timestamp` is not after
    /// the landmark.
    pub open spec fn spec_decayed_value(&self, ti: u64, vi: i64, t: u64) -> (int, int) {
        let w = self.spec_weight(ti, t);
        (w.0 * vi, w.1)
    }

    /// The decayed value `weight(item, t) * vi` of `item` at `timestamp`.
    pub fn decayed_value<I: Item>(&self, item: &I, timestamp: u64) -> (r: Ratio)
        requires
            self.wf(),
            self.fits_at(item.spec_timestamp()),
            timestamp > self.spec_landmark() ==> self.fits_at(timestamp),
        ensures
            (r.num(), r.den()) == self.spec_decayed_value(item.spec_timestamp(), item.spec_value(), timestamp),
    {
        if timestamp <= self.landmark || item.timestamp() < self.landmark {
            return Ratio::from_unsigned(0, 1);
        }
        let numerator = self.static_weighted_value(item);
        let denominator = self.g.invoke(timestamp as i128 - self.landmark as i128);
        Ratio::from_signed(numerator, denominator as u128)
    }

    /// The landmark-relative weighted value `g(ti - L) * vi` of `item`.
    pub fn static_weighted_value<I: Item>(&self, item: &I) -> (r: i128)
        requires
            self.wf(),
            self.fits_at(item.spec_timestamp()),
        ensures
            r == self.g_at(item.spec_timestamp()) * item.spec_value(),
    {
        let w = self.g.invoke(item.age(self.landmark));
        let v = item.value();
        proof {
            lemma_weighted_value_fits(w, v);
        }
        w as i128 * v as i128
    }

    /// The normalizing factor `g(t - L)` of a query at `timestamp`.
    pub fn normalizing_factor(&self, timestamp: u64) -> (r: u64)
        requires
            self.wf(),
            self.fits_at(timestamp),
        ensures
            r == self.g_at(timestamp),
    {
        self.g.invoke(timestamp as i128 - self.landmark as i128)
    }
}

/// A model with its landmark moved keeps its function.
pub proof fn lemma_with_landmark<G: Function>(fd: ForwardDecay<G>, landmark: u64)
    ensures
        fd.with_landmark(landmark).spec_landmark() == landmark,
        fd.with_landmark(landmark).spec_g() == fd.spec_g(),
        fd.with_landmark(landmark).wf() == fd.wf(),
        landmark == fd.spec_landmark() ==> fd.with_landmark(landmark) == fd,
        forall|m: u64| #[trigger] fd.with_landmark(landmark).with_landmark(m) == fd.with_landmark(m),
{
}

/// A total `n` kept against the landmark of `fd` (a reference time), over
/// the normalizing factor at `t`, as a numerator and a denominator. Where g
/// grows by a whole base per tick, a time before the reference is exact
/// too: the factor is then `1 / b^(R - t)`.
pub open spec fn normalized<G: Function>(fd: ForwardDecay<G>, n: int, t: u64) -> (int, int) {
    let r = fd.spec_landmark();
    let b = fd.spec_g().spec_base();
    if t < r && b > 1 {
        (n * pow(b as int, (r - t) as nat), 1)
    } else {
        (n, fd.g_at(t) as int)
    }
}

/// `normalized` can be held: a `u64` factor, or a numerator in range.
pub open spec fn normalizable<G: Function>(fd: ForwardDecay<G>, n: int, t: u64, lo: int, hi: int) -> bool {
    let r = fd.spec_landmark();
    if t < r && fd.spec_g().spec_base() > 1 {
        lo <= normalized(fd, n, t).0 <= hi
    } else {
        fd.fits_at(t)
    }
}

impl<G: Function> ForwardDecay<G> {
    /// The signed total `n`, kept against this model's landmark, over the
    /// normalizing factor at `timestamp`.
    pub fn normalize(&self, n: i128, timestamp: u64) -> (r: Ratio)
        requires
            self.wf(),
            normalizable(*self, n as int, timestamp, i128::MIN as int, i128::MAX as int),
        ensures
            (r.num(), r.den()) == normalized(*self, n as int, timestamp),
    {
        let b = self.g.base();
        if timestamp < self.landmark && b > 1 {
            if n == 0 {
                return Ratio::from_signed(0, 1);
            }
            let e = (self.landmark - timestamp) as u128;
            let ghost p = pow(b as int, e as nat);
            proof {
                vstd::arithmetic::power::lemma_pow_positive(b as int, e as nat);
                assert(p <= (if n > 0 { n * p } else { -(n * p) })) by (nonlinear_arith)
                    requires
                        p >= 1,
                        n != 0,
                ;
            }
            let f = match crate::g::checked_pow(b as u128, e) {
                Some(v) => v,
                None => 0,
            };
            if f > i128::MAX as u128 {
                proof {
                    assert(n == -1) by (nonlinear_arith)
                        requires
                            p > 0x7FFF_FFFF_FFFF_FFFF_FFFF_FFFF_FFFF_FFFF,
                            n * p >= -0x8000_0000_0000_0000_0000_0000_0000_0000,
                            n * p <= 0x7FFF_FFFF_FFFF_FFFF_FFFF_FFFF_FFFF_FFFF,
                            n != 0,
                    ;
                }
                return Ratio::from_signed(i128::MIN, 1);
            }
            Ratio::from_signed(n * (f as i128), 1)
        } else {
            Ratio::from_signed(n, self.g.invoke(timestamp as i128 - self.landmark as i128) as u128)
        }
    }

    /// The unsigned total `n`, kept against this model's landmark, over the
    /// normalizing factor at `timestamp`.
    pub fn normalize_unsigned(&self, n: u128, timestamp: u64) -> (r: Ratio)
        requires
            self.wf(),
            normalizable(*self, n as int, timestamp, 0, u128::MAX as int),
        ensures
            (r.num(), r.den()) == normalized(*self, n as int, timestamp),
    {
        let b = self.g.base();
        if timestamp < self.landmark && b > 1 {
            if n == 0 {
                return Ratio::from_unsigned(0, 1);
            }
            let e = (self.landmark - timestamp) as u128;
            let ghost p = pow(b as int, e as nat);
            proof {
                vstd::arithmetic::power::lemma_pow_positive(b as int, e as nat);
                assert(p <= n * p) by (nonlinear_arith)
                    requires
                        p >= 1,
                        n >= 1,
                ;
            }
            let f = match crate::g::checked_pow(b as u128, e) {
                Some(v) => v,
                None => 0,
            };
            Ratio::from_unsigned(n * f, 1)
        } else {
            Ratio::from_unsigned(n, self.g.invoke(timestamp as i128 - self.landmark as i128) as u128)
        }
    }
}

/// `n * f`, which must lie in the range of `i128`.
pub fn mul_signed(n: i128, f: u128) -> (r: i128)
    requires
        i128::MIN <= n * f <= i128::MAX,
    ensures
        r == n * f,
{
    if n == 0 || f == 0 {
        proof {
            assert(n * f == 0) by (nonlinear_arith)
                requires
                    n == 0 || f == 0,
            ;
        }
        return 0;
    }
    proof {
        assert(f <= (if n > 0 { n * f } else { -(n * f) })) by (nonlinear_arith)
            requires
                f >= 1,
                n != 0,
        ;
    }
    if f > i128::MAX as u128 {
        proof {
            assert(n == -1) by (nonlinear_arith)
                requires
                    f > 0x7FFF_FFFF_FFFF_FFFF_FFFF_FFFF_FFFF_FFFF,
                    n * f >= -0x8000_0000_0000_0000_0000_0000_0000_0000,
                    n * f <= 0x7FFF_FFFF_FFFF_FFFF_FFFF_FFFF_FFFF_FFFF,
                    n != 0,
            ;
        }
        return i128::MIN;
    }
    n * (f as i128)
}

/// `n / f`, where `f` divides `n`: `n == f * q`.
pub fn div_exact(n: i128, f: u128, Ghost(q): Ghost<int>) -> (r: i128)
    requires
        f >= 1,
        n == f * q,
    ensures
        r == q,
{
    if n >= 0 {
        proof {
            assert(q >= 0 && q <= n) by (nonlinear_arith)
                requires
                    n == f * q,
                    f >= 1,
                    n >= 0,
            ;
            vstd::arithmetic::div_mod::lemma_div_multiples_vanish(q, f as int);
        }
        ((n as u128) / f) as i128
    } else {
        let m: u128 = if n == i128::MIN { (i128::MAX as u128) + 1 } else { (-n) as u128 };
        proof {
            assert(q < 0 && -q <= m && m == f * (-q)) by (nonlinear_arith)
                requires
                    n == f * q,
                    f >= 1,
                    n < 0,
                    m == -n,
            ;
            vstd::arithmetic::div_mod::lemma_div_multiples_vanish(-q, f as int);
        }
        let qm = m / f;
        if qm == (i128::MAX as u128) + 1 {
            i128::MIN
        } else {
            -(qm as i128)
        }
    }
}

/// A `u64` weight times an `i64` value fits in an `i128`.
proof fn lemma_weighted_value_fits(w: u64, v: i64)
    ensures
        i128::MIN <= w * v <= i128::MAX,
{
    if v >= 0 {
        assert(0 <= w * v <= 0xFFFF_FFFF_FFFF_FFFF * 0x7FFF_FFFF_FFFF_FFFF) by (nonlinear_arith)
            requires
                0 <= w <= 0xFFFF_FFFF_FFFF_FFFF,
                0 <= v <= 0x7FFF_FFFF_FFFF_FFFF,
        ;
    } else {
        assert(0xFFFF_FFFF_FFFF_FFFF * -0x8000_0000_0000_0000 <= w * v <= 0) by (nonlinear_arith)
            requires
                0 <= w <= 0xFFFF_FFFF_FFFF_FFFF,
                -0x8000_0000_0000_0000 <= v < 0,
        ;
    }
}

/// Weights are bounded: at a time not after the landmark every weight is
/// zero; at a later time, an item that arrived no later than that time has a
/// weight between zero and one.
pub proof fn lemma_weight_bounds<G: Function>(fd: ForwardDecay<G>, ti: u64, t: u64)
    requires
        fd.wf(),
    ensures
        t <= fd.spec_landmark() ==> fd.spec_weight(ti, t).0 == 0,
        t > fd.spec_landmark() && ti <= t ==> {
            let w = fd.spec_weight(ti, t);
            0 <= w.0 <= w.1 && w.1 > 0
        },
{
    if t > fd.spec_landmark() && ti <= t {
        fd.spec_g().lemma_monotone(
            (ti - fd.spec_landmark()) as i128,
            (t - fd.spec_landmark()) as i128,
        );
        fd.spec_g().lemma_positive((t - fd.spec_landmark()) as i128);
    }
}

/// Weights are monotone: of two items observed at the same time, the one
/// that arrived later weighs at least as much, and the weight of one item
/// does not grow as the observation time moves on.
pub proof fn lemma_weight_monotone<G: Function>(fd: ForwardDecay<G>, ti: u64, tj: u64, t: u64, t2: u64)
    requires
        fd.wf(),
        ti <= tj <= t <= t2,
        t > fd.spec_landmark(),
    ensures
        ratio_le(fd.spec_weight(ti, t), fd.spec_weight(tj, t)),
        ratio_le(fd.spec_weight(ti, t2), fd.spec_weight(ti, t)),
{
    let l = fd.spec_landmark();
    let g = fd.spec_g();
    if ti < l {
        return;
    }
    g.lemma_monotone((ti - l) as i128, (tj - l) as i128);
    g.lemma_monotone((t - l) as i128, (t2 - l) as i128);
    g.lemma_positive((t - l) as i128);
    let (a, b) = (fd.g_at(ti) as int, fd.g_at(tj) as int);
    let (c, d) = (fd.g_at(t) as int, fd.g_at(t2) as int);
    assert(a * c <= b * c) by (nonlinear_arith)
        requires
            a <= b,
            c > 0,
    ;
    assert(a * c <= a * d) by (nonlinear_arith)
        requires
            0 <= a,
            c <= d,
    ;
}

/// The earlier of two items observed at the same time weighs at least as
/// much as the later one where g takes the same value at both their ages,
/// where the later one arrived before the landmark, or where the
/// observation is not after the landmark.
pub proof fn lemma_earlier_weighs_no_less_on_ties<G: Function>(fd: ForwardDecay<G>, ti: u64, tj: u64, t: u64)
    requires
        fd.wf(),
        ti <= tj <= t,
        t <= fd.spec_landmark() || tj < fd.spec_landmark() || (ti >= fd.spec_landmark() && fd.g_at(tj) <= fd.g_at(ti)),
    ensures
        ratio_le(fd.spec_weight(tj, t), fd.spec_weight(ti, t)),
{
    if t > fd.spec_landmark() && ti >= fd.spec_landmark() {
        let l = fd.spec_landmark();
        fd.spec_g().lemma_positive((t - l) as i128);
        let (a, b, c) = (fd.g_at(ti) as int, fd.g_at(tj) as int, fd.g_at(t) as int);
        assert(b * c <= a * c) by (nonlinear_arith)
            requires
                b <= a,
                c > 0,
        ;
    }
}

} // verus!
