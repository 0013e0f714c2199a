//! Space-Saving over a decaying stream: a bounded number of counters that
//! track the heaviest keys, each with a bound on its error.
use vstd::prelude::*;
use crate::decay::{ForwardDecay, lemma_with_landmark, normalizable, normalized};
use crate::aggregate::basic::{lemma_normalized_shift, rebased};
use crate::ratio::ratio_eq;
use crate::g::{Exponential, Function};
use crate::ratio::Ratio;
use vstd::arithmetic::power::pow;
use vstd::arithmetic::div_mod::{lemma_fundamental_div_mod, lemma_hoist_over_denominator, lemma_mod_multiples_vanish};

verus! {

/// The landmark-relative count of a key and the most by which it may
/// overestimate the key's true count.
#[derive(Copy, Clone, Debug, PartialEq, Eq, Structural)]
pub struct Count {
    pub count: u128,
    pub error: u128,
}

/// One slot of the arena: a key, its count, and its error.
struct Counter {
    key: String,
    count: u128,
    error: u128,
}

/// `(count, error)` of `a` ranks at least as high as that of `b`.
pub open spec fn rank_ge(a: (Seq<char>, u128, u128), b: (Seq<char>, u128, u128)) -> bool {
    a.1 > b.1 || (a.1 == b.1 && a.2 >= b.2)
}

/// `x / d` rounded up, for positive `d`.
pub open spec fn ceil_div(x: int, d: int) -> int {
    x / d + if x % d == 0 { 0int } else { 1int }
}

/// `ceil(num * hits / den)`, or `None` when that exceeds `u128::MAX`.
fn threshold_of(hits: u128, num: u64, den: u64) -> (r: Option<u128>)
    requires
        den > 0,
    ensures
        r matches Some(t) ==> t == ceil_div(num * hits, den as int),
        r is None ==> ceil_div(num * hits, den as int) > u128::MAX,
{
    let d = den as u128;
    let q = hits / d;
    let rem = hits % d;
    proof {
        assert(num * rem <= u128::MAX) by (nonlinear_arith)
            requires
                num <= u64::MAX,
                rem < d <= u64::MAX,
        ;
    }
    let part = num as u128 * rem;
    proof {
        lemma_fundamental_div_mod(hits as int, d as int);
        lemma_fundamental_div_mod(part as int, d as int);
        if part % d != 0 {
            let pq = part / d;
            assert(pq < u128::MAX) by (nonlinear_arith)
                requires
                    part == d * pq + part % d,
                    part % d > 0,
                    d >= 1,
                    pq >= 0,
                    part <= u128::MAX,
            ;
        }
    }
    let up = part / d + if part % d == 0 { 0 } else { 1 };
    proof {
        let nq = num * q;
        assert(num * hits == part + nq * d) by (nonlinear_arith)
            requires
                hits == d * q + rem,
                part == num * rem,
                nq == num * q,
        ;
        lemma_hoist_over_denominator(part as int, nq, d as nat);
        lemma_mod_multiples_vanish(nq, part as int, d as int);
        assert(d * nq == nq * d) by (nonlinear_arith);
        assert(ceil_div(num * hits, den as int) == nq + up);
    }
    match (num as u128).checked_mul(q) {
        Some(base) => base.checked_add(up),
        None => None,
    }
}

/// `x` is a whole multiple of `d`.
pub open spec fn divides(d: int, x: int) -> bool {
    x % d == 0
}

/// A multiple of `d` is `d` times its quotient, and `q * d` is a multiple.
proof fn lemma_divides_quotient(d: int, x: int, q: int)
    requires
        d > 0,
    ensures
        divides(d, x) ==> x == d * (x / d),
        x == q * d ==> divides(d, x) && x / d == q,
{
    lemma_fundamental_div_mod(x, d);
    if x == q * d {
        vstd::arithmetic::div_mod::lemma_mod_multiples_basic(q, d);
        vstd::arithmetic::div_mod::lemma_div_multiples_vanish(q, d);
        assert(d * q == q * d) by (nonlinear_arith);
    }
}

/// Sums of multiples of `d` are multiples of `d`.
proof fn lemma_divides_add(d: int, x: int, y: int)
    requires
        d > 0,
        divides(d, x),
        divides(d, y),
    ensures
        divides(d, x + y),
{
    lemma_divides_quotient(d, x, 0);
    lemma_divides_quotient(d, y, 0);
    let (qx, qy) = (x / d, y / d);
    assert(x + y == (qx + qy) * d) by (nonlinear_arith)
        requires
            x == d * qx,
            y == d * qy,
    ;
    lemma_divides_quotient(d, x + y, qx + qy);
}

/// A multiple of `b^e2` is a multiple of `b^e1` for `e1 <= e2`.
proof fn lemma_divides_pow(b: int, e1: nat, e2: nat, x: int)
    requires
        b >= 1,
        e1 <= e2,
        divides(pow(b, e2), x),
    ensures
        divides(pow(b, e1), x),
{
    vstd::arithmetic::power::lemma_pow_positive(b, e1);
    vstd::arithmetic::power::lemma_pow_positive(b, e2);
    vstd::arithmetic::power::lemma_pow_adds(b, e1, (e2 - e1) as nat);
    let (p1, p2, p3) = (pow(b, e1), pow(b, e2), pow(b, (e2 - e1) as nat));
    lemma_divides_quotient(p2, x, 0);
    let q = x / p2;
    assert(x == (p3 * q) * p1) by (nonlinear_arith)
        requires
            x == p2 * q,
            p2 == p1 * p3,
    ;
    lemma_divides_quotient(p1, x, p3 * q);
}

/// A multiple of `d * f` divided by `f` is a multiple of `d`.
proof fn lemma_divides_shrink(d: int, f: int, x: int)
    requires
        d > 0,
        f > 0,
        divides(d * f, x),
    ensures
        divides(f, x),
        x == f * (x / f),
        divides(d, x / f),
{
    assert(d * f > 0) by (nonlinear_arith)
        requires
            d > 0,
            f > 0,
    ;
    lemma_divides_quotient(d * f, x, 0);
    let q = x / (d * f);
    assert(x == (d * q) * f && d * q * f == x) by (nonlinear_arith)
        requires
            x == (d * f) * q,
    ;
    lemma_divides_quotient(f, x, d * q);
    lemma_divides_quotient(d, d * q, q);
    assert(d * q == q * d) by (nonlinear_arith);
    lemma_divides_quotient(d, x / f, q);
}

/// The earlier of a possible time and `t`.
pub open spec fn earlier(e: Option<u64>, t: u64) -> u64 {
    match e {
        Some(x) => if t < x { t } else { x },
        None => t,
    }
}

/// The sum of the counts of the slots `s`.
pub open spec fn total(s: Seq<(Seq<char>, u128, u128)>) -> int
    decreases s.len(),
{
    if s.len() == 0 {
        0
    } else {
        total(s.drop_last()) + s.last().1
    }
}

/// Replacing one slot changes the total by the change of its count.
proof fn lemma_total_update(s: Seq<(Seq<char>, u128, u128)>, j: int, e: (Seq<char>, u128, u128))
    requires
        0 <= j < s.len(),
    ensures
        total(s.update(j, e)) == total(s) - s[j].1 + e.1,
    decreases s.len(),
{
    let t = s.update(j, e);
    if j < s.len() - 1 {
        lemma_total_update(s.drop_last(), j, e);
        assert(t.drop_last() =~= s.drop_last().update(j, e));
    } else {
        assert(t.drop_last() =~= s.drop_last());
    }
}

/// Multiplying every count by `f` multiplies the total by `f`.
proof fn lemma_total_scaled(s: Seq<(Seq<char>, u128, u128)>, f: int)
    requires
        f >= 1,
        forall|i: int| 0 <= i < s.len() ==> (#[trigger] s[i]).1 * f <= u128::MAX,
    ensures
        total(s.map_values(|e: (Seq<char>, u128, u128)| (e.0, (e.1 * f) as u128, (e.2 * f) as u128))) == total(s) * f,
    decreases s.len(),
{
    let t = s.map_values(|e: (Seq<char>, u128, u128)| (e.0, (e.1 * f) as u128, (e.2 * f) as u128));
    if s.len() > 0 {
        let init = s.drop_last();
        assert forall|i: int| 0 <= i < init.len() implies (#[trigger] init[i]).1 * f <= u128::MAX by {
            assert(init[i] == s[i]);
        }
        lemma_total_scaled(init, f);
        assert(t.drop_last() =~= init.map_values(|e: (Seq<char>, u128, u128)| (e.0, (e.1 * f) as u128, (e.2 * f) as u128)));
        assert(s.last() == s[s.len() - 1]);
        let (a, b) = (total(init), s.last().1 as int);
        assert((a + b) * f == a * f + b * f) by (nonlinear_arith);
    }
}

/// Dividing every count exactly by `f` divides the total by `f`.
proof fn lemma_total_divided(s: Seq<(Seq<char>, u128, u128)>, f: int)
    requires
        f >= 1,
        forall|i: int| 0 <= i < s.len() ==> divides(f, (#[trigger] s[i]).1 as int),
    ensures
        total(s.map_values(|e: (Seq<char>, u128, u128)| (e.0, (e.1 as int / f) as u128, (e.2 as int / f) as u128))) == total(s) / f,
        divides(f, total(s)),
    decreases s.len(),
{
    let t = s.map_values(|e: (Seq<char>, u128, u128)| (e.0, (e.1 as int / f) as u128, (e.2 as int / f) as u128));
    if s.len() == 0 {
        lemma_divides_quotient(f, 0, 0);
    } else {
        let init = s.drop_last();
        assert forall|i: int| 0 <= i < init.len() implies divides(f, (#[trigger] init[i]).1 as int) by {
            assert(init[i] == s[i]);
        }
        lemma_total_divided(init, f);
        assert(t.drop_last() =~= init.map_values(|e: (Seq<char>, u128, u128)| (e.0, (e.1 as int / f) as u128, (e.2 as int / f) as u128)));
        assert(s.last() == s[s.len() - 1]);
        let (a, c) = (total(init), s.last().1 as int);
        lemma_divides_quotient(f, a, 0);
        lemma_divides_quotient(f, c, 0);
        assert(c / f <= c) by {
            vstd::arithmetic::div_mod::lemma_div_is_ordered_by_denominator(c, 1, f);
        }
        assert(a + c == (a / f + c / f) * f) by (nonlinear_arith)
            requires
                a == f * (a / f),
                c == f * (c / f),
        ;
        lemma_divides_quotient(f, a + c, a / f + c / f);
    }
}

/// Slots that all count at least `m` total at least `m` times their number.
proof fn lemma_total_at_least(s: Seq<(Seq<char>, u128, u128)>, m: int)
    requires
        m >= 0,
        forall|i: int| 0 <= i < s.len() ==> m <= (#[trigger] s[i]).1,
    ensures
        total(s) >= s.len() * m,
    decreases s.len(),
{
    if s.len() > 0 {
        let init = s.drop_last();
        assert forall|i: int| 0 <= i < init.len() implies m <= (#[trigger] init[i]).1 by {
            assert(init[i] == s[i]);
        }
        lemma_total_at_least(init, m);
        assert(s.last() == s[s.len() - 1]);
        assert(s.len() * m == init.len() * m + m) by (nonlinear_arith)
            requires
                init.len() == s.len() - 1,
        ;
    }
}

/// The keys of a list of results, whichever way it is flagged.
pub open spec fn keys_of(r: Result<Vec<String>, Vec<String>>) -> Seq<Seq<char>> {
    match r {
        Ok(v) => v@.map_values(|k: String| k@),
        Err(v) => v@.map_values(|k: String| k@),
    }
}

/// The guaranteed lower bound `count - error` of a slot.
pub open spec fn lower(a: (Seq<char>, u128, u128)) -> int {
    a.1 - a.2
}

/// An approximate counter of the heaviest keys of a decaying stream, after
/// the Space-Saving algorithm: at most `capacity` counters, each a key with
/// a count and an error, kept in an arena of slots.
///
/// Counts, errors and the total are whole numbers kept against a reference
/// time R, the landmark of the decay model that `decay` returns: a hit at
/// `t` weighs `g(t - R)`, and a query divides by `g(t - R)`. Where g is `b^a`
/// (exponential decay) a hit before R moves R back to it, multiplying every
/// count, error and total exactly; a move of the landmark moves R forward as
/// far as the earliest hit allows and divides them all exactly. No decayed
/// result changes on either move.
pub struct BTreeSpaceSaving<G> {
    capacity: usize,
    decay: ForwardDecay<G>,
    landmark: u64,
    hits: u128,
    counters: Vec<Counter>,
    earliest: Option<u64>,
    truth: Ghost<Map<Seq<char>, nat>>,
}

impl<G: Function> BTreeSpaceSaving<G> {
    /// The slots, each as `(key, count, error)`.
    pub closed spec fn slots(&self) -> Seq<(Seq<char>, u128, u128)> {
        self.counters@.map_values(|c: Counter| (c.key@, c.count, c.error))
    }

    pub closed spec fn spec_capacity(&self) -> nat {
        self.capacity as nat
    }

    /// The decay model against the reference time R.
    pub closed spec fn spec_decay(&self) -> ForwardDecay<G> {
        self.decay
    }

    /// The landmark L.
    pub closed spec fn spec_landmark(&self) -> u64 {
        self.landmark
    }

    /// The earliest time of any hit, if there was one.
    pub closed spec fn spec_earliest(&self) -> Option<u64> {
        self.earliest
    }

    /// Where g is `b^a`: the earliest hit E is not before the reference time
    /// R, and the total, every count, error and true count are whole
    /// multiples of `b^(E - R)`, so that a move of R up to E divides them
    /// exactly; before any hit they are all zero.
    pub open spec fn aligned(&self) -> bool {
        let fd = self.spec_decay();
        let b = fd.spec_g().spec_base() as int;
        let s = self.slots();
        b > 1 ==> match self.spec_earliest() {
            None => s.len() == 0 && self.spec_hits() == 0 && forall|k: Seq<char>| #[trigger] self.true_count(k) == 0,
            Some(e) => {
                let d = pow(b, (e - fd.spec_landmark()) as nat);
                &&& e >= fd.spec_landmark()
                &&& divides(d, self.spec_hits() as int)
                &&& forall|i: int| 0 <= i < s.len() ==> divides(d, (#[trigger] s[i]).1 as int) && divides(d, s[i].2 as int)
                &&& forall|k: Seq<char>| divides(d, #[trigger] self.true_count(k) as int)
            },
        }
    }

    /// The total weight of all hits against R.
    pub closed spec fn spec_hits(&self) -> nat {
        self.hits as nat
    }

    /// The exact weight of the hits of `key` against R, as an unbounded
    /// table of every key would hold it.
    pub closed spec fn true_count(&self, key: Seq<char>) -> nat {
        if self.truth@.dom().contains(key) {
            self.truth@[key]
        } else {
            0
        }
    }

    /// Some slot holds `key`.
    pub open spec fn tracks(&self, key: Seq<char>) -> bool {
        exists|j: int| 0 <= j < self.slots().len() && #[trigger] self.slots()[j].0 == key
    }

    /// The slot that holds `key`.
    pub open spec fn slot_of(&self, key: Seq<char>) -> int {
        choose|j: int| 0 <= j < self.slots().len() && #[trigger] self.slots()[j].0 == key
    }

    /// Slot `j` ranks lowest: it is the one that an unseen key evicts.
    pub open spec fn is_min_slot(&self, j: int) -> bool {
        &&& 0 <= j < self.slots().len()
        &&& forall|i: int| 0 <= i < self.slots().len() ==> rank_ge(#[trigger] self.slots()[i], self.slots()[j])
    }

    /// The slot of `key`, as `(key, count, error)`.
    pub open spec fn entry(&self, key: Seq<char>) -> (Seq<char>, u128, u128) {
        self.slots()[self.slot_of(key)]
    }

    /// `keys` are distinct keys that have slots, in ranked order, and each
    /// ranks at least as high as every other key that has a slot.
    pub open spec fn leading(&self, keys: Seq<Seq<char>>) -> bool {
        &&& keys.no_duplicates()
        &&& forall|a: int| 0 <= a < keys.len() ==> self.tracks(#[trigger] keys[a])
        &&& forall|a: int, b: int| 0 <= a < b < keys.len() ==> rank_ge(self.entry(#[trigger] keys[a]), self.entry(#[trigger] keys[b]))
        &&& forall|a: int, y: Seq<char>| 0 <= a < keys.len() && self.tracks(y) && !keys.contains(y) ==> rank_ge(self.entry(#[trigger] keys[a]), #[trigger] self.entry(y))
    }

    /// The lowest guaranteed lower bound among `keys`, or `u128::MAX` for none.
    pub open spec fn min_lower(&self, keys: Seq<Seq<char>>) -> int
        decreases keys.len(),
    {
        if keys.len() == 0 {
            u128::MAX as int
        } else {
            let rest = self.min_lower(keys.drop_last());
            let last = lower(self.entry(keys.last()));
            if last < rest { last } else { rest }
        }
    }

    /// Every error, times the capacity, is at most the total: an error is
    /// at most the total over the capacity.
    #[verifier::opaque]
    pub open spec fn errors_bounded(&self) -> bool {
        forall|i: int| 0 <= i < self.slots().len() ==> (#[trigger] self.slots()[i]).2 * self.spec_capacity() <= self.spec_hits()
    }

    /// The structure's invariant, including the error bounds of every key.
    pub open spec fn wf(&self) -> bool {
        let s = self.slots();
        &&& self.spec_decay().wf()
        &&& 1 <= self.spec_capacity()
        &&& s.len() <= self.spec_capacity()
        &&& total(s) == self.spec_hits()
        &&& self.errors_bounded()
        &&& forall|i: int, j: int| 0 <= i < j < s.len() ==> #[trigger] s[i].0 != #[trigger] s[j].0
        &&& forall|i: int| 0 <= i < s.len() ==> {
            &&& (#[trigger] s[i]).2 <= s[i].1 <= self.spec_hits()
            &&& lower(s[i]) <= self.true_count(s[i].0) <= s[i].1
        }
        &&& forall|k: Seq<char>, i: int| !self.tracks(k) && 0 <= i < s.len() ==> #[trigger] self.true_count(k) <= (#[trigger] s[i]).1
        &&& s.len() < self.spec_capacity() ==> forall|k: Seq<char>| !self.tracks(k) ==> #[trigger] self.true_count(k) == 0
    }

    /// An empty counter set of `capacity` slots over `decay`.
    pub fn new(capacity: usize, decay: ForwardDecay<G>) -> (r: Self)
        requires
            capacity >= 1,
            decay.wf(),
        ensures
            r.wf(),
            r.spec_capacity() == capacity,
            r.spec_decay() == decay,
            r.spec_landmark() == decay.spec_landmark(),
            r.aligned(),
            r.spec_earliest() is None,
            r.spec_hits() == 0,
            r.slots().len() == 0,
            forall|k: Seq<char>| r.true_count(k) == 0,
    {
        let landmark = decay.landmark();
        let r = BTreeSpaceSaving {
            capacity,
            decay,
            landmark,
            hits: 0,
            counters: Vec::new(),
            earliest: None,
            truth: Ghost(Map::empty()),
        };
        proof {
            assert(r.slots() =~= Seq::empty());
            reveal(BTreeSpaceSaving::errors_bounded);
        }
        r
    }

    /// The slot that holds `key`, if any.
    fn find(&self, key: &String) -> (r: Option<usize>)
        ensures
            r matches Some(j) ==> j < self.slots().len() && self.slots()[j as int].0 == key@,
            r is None ==> !self.tracks(key@),
    {
        let mut i: usize = 0;
        while i < self.counters.len()
            invariant
                i <= self.counters.len(),
                forall|j: int| 0 <= j < i ==> self.slots()[j].0 != key@,
            decreases self.counters.len() - i,
        {
            if self.counters[i].key == *key {
                return Some(i);
            }
            i = i + 1;
        }
        None
    }

    /// The lowest-ranked slot; there must be one.
    fn min_slot(&self) -> (r: usize)
        requires
            self.slots().len() > 0,
        ensures
            self.is_min_slot(r as int),
    {
        let mut m: usize = 0;
        let mut i: usize = 1;
        while i < self.counters.len()
            invariant
                1 <= i <= self.counters.len(),
                m < i,
                forall|j: int| 0 <= j < i ==> rank_ge(#[trigger] self.slots()[j], self.slots()[m as int]),
            decreases self.counters.len() - i,
        {
            let c = &self.counters[i];
            let b = &self.counters[m];
            if c.count < b.count || (c.count == b.count && c.error < b.error) {
                m = i;
            }
            i = i + 1;
        }
        m
    }

    /// The slots after a hit of `key` of weight `w`, as `hit` makes them;
    /// `j` is the slot that an unseen key takes when all slots are in use.
    pub open spec fn slots_after_hit(&self, key: Seq<char>, w: nat, j: int) -> Seq<(Seq<char>, u128, u128)> {
        let s = self.slots();
        if self.tracks(key) {
            let t = self.slot_of(key);
            s.update(t, (key, (s[t].1 + w) as u128, s[t].2))
        } else if s.len() < self.spec_capacity() {
            s.push((key, w as u128, 0u128))
        } else {
            s.update(j, (key, (s[j].1 + w) as u128, s[j].1))
        }
    }

    /// `next` and `r` are what a hit of `key` at `now` makes of this
    /// counter, against its reference time: the hit's weight w is
    /// `g(now - R)`; the slots change as `slots_after_hit` says, where an
    /// unseen key takes a lowest-ranked slot when all are in use.
    pub open spec fn hit_post(&self, key: Seq<char>, now: u64, next: Self, r: Count) -> bool {
        let w = self.spec_decay().g_at(now);
        &&& next.wf()
        &&& next.spec_capacity() == self.spec_capacity()
        &&& next.spec_decay() == self.spec_decay()
        &&& next.spec_landmark() == self.spec_landmark()
        &&& next.spec_hits() == self.spec_hits() + w
        &&& forall|k: Seq<char>| #[trigger] next.true_count(k) == self.true_count(k) + (if k == key { w } else { 0 })
        &&& exists|j: int|
            {
                &&& (!self.tracks(key) && self.slots().len() == self.spec_capacity() ==> self.is_min_slot(j))
                &&& next.slots() == #[trigger] self.slots_after_hit(key, w, j)
            }
        &&& next.tracks(key)
        &&& next.slots()[next.slot_of(key)] == (key, r.count, r.error)
        &&& !self.tracks(key) && self.slots().len() == self.spec_capacity() ==> r.error * self.spec_capacity() <= self.spec_hits()
    }

    /// The factor by which a hit at `now` multiplies every quantity: where g
    /// is `b^a` and `now` comes before the reference time R, `b^(R - now)`;
    /// otherwise one.
    pub open spec fn rebase_factor(&self, now: u64) -> int {
        let fd = self.spec_decay();
        if fd.spec_g().spec_base() > 1 && now < fd.spec_landmark() {
            pow(fd.spec_g().spec_base() as int, (fd.spec_landmark() - now) as nat)
        } else {
            1
        }
    }

    /// `mid` is this counter carried to the reference time of a hit at
    /// `now`: every count, error, total and true count times the factor.
    pub open spec fn rebased_to(&self, now: u64, mid: Self) -> bool {
        let f = self.rebase_factor(now);
        &&& mid.spec_decay() == rebased(self.spec_decay(), now)
        &&& mid.spec_landmark() == self.spec_landmark()
        &&& mid.spec_capacity() == self.spec_capacity()
        &&& mid.spec_hits() == self.spec_hits() * f
        &&& mid.slots() == self.slots().map_values(|e: (Seq<char>, u128, u128)| (e.0, (e.1 * f) as u128, (e.2 * f) as u128))
        &&& forall|k: Seq<char>| #[trigger] mid.true_count(k) == self.true_count(k) * f
    }

    /// A hit at `now` keeps every quantity in its machine range.
    pub open spec fn can_hit(&self, now: u64) -> bool {
        let fd = rebased(self.spec_decay(), now);
        &&& fd.fits_at(now)
        &&& self.spec_hits() * self.rebase_factor(now) + fd.g_at(now) <= u128::MAX
    }

    /// Carries every quantity to `now` as reference time.
    fn rebase(&mut self, now: u64)
        requires
            old(self).wf(),
            old(self).spec_decay().spec_g().spec_base() > 1,
            now < old(self).spec_decay().spec_landmark(),
            old(self).spec_hits() * old(self).rebase_factor(now) <= u128::MAX,
        ensures
            final(self).wf(),
            old(self).rebased_to(now, *final(self)),
            final(self).spec_earliest() == old(self).spec_earliest(),
    {
        let ghost pre = *self;
        let ghost s0 = self.slots();
        let ghost f = pre.rebase_factor(now);
        let b = self.decay.g().base();
        let e = (self.decay.landmark() - now) as u128;
        proof {
            vstd::arithmetic::power::lemma_pow_positive(b as int, e as nat);
            lemma_with_landmark(self.decay, now);
        }
        let fv: u128 = match crate::g::checked_pow(b as u128, e) {
            Some(v) => v,
            None => 0,
        };
        proof {
            if self.hits > 0 {
                assert(f <= self.hits * f) by (nonlinear_arith)
                    requires
                        self.hits >= 1,
                        f >= 1,
                ;
            }
        }
        if self.hits > 0 {
            self.hits = self.hits * fv;
        }
        self.truth = Ghost(Map::new(|k: Seq<char>| pre.truth@.dom().contains(k), |k: Seq<char>| (pre.truth@[k] * f) as nat));
        self.decay.set_landmark(now);
        let ghost mid = *self;
        let n = self.counters.len();
        let mut i: usize = 0;
        while i < n
            invariant
                self.decay == mid.decay,
                self.hits == mid.hits,
                self.capacity == mid.capacity,
                self.truth == mid.truth,
                self.landmark == mid.landmark,
                self.earliest == pre.earliest,
                mid.hits == (if pre.hits > 0 { pre.hits * f } else { 0 }),
                mid.hits > 0 <==> pre.hits > 0,
                pre.wf(),
                s0 == pre.slots(),
                f >= 1,
                pre.spec_hits() * f <= u128::MAX,
                pre.spec_hits() > 0 ==> fv == f,
                n == s0.len(),
                self.counters.len() == n,
                i <= n,
                forall|j: int| 0 <= j < i ==> #[trigger] self.slots()[j] == (s0[j].0, (s0[j].1 * f) as u128, (s0[j].2 * f) as u128),
                forall|j: int| i <= j < n ==> #[trigger] self.slots()[j] == s0[j],
            decreases n - i,
        {
            let ghost before = self.slots();
            proof {
                assert(self.slots()[i as int] == s0[i as int]);
                let (c, r) = (s0[i as int].1 as int, s0[i as int].2 as int);
                assert(r <= c <= pre.spec_hits());
                assert(r * f <= c * f <= pre.spec_hits() * f) by (nonlinear_arith)
                    requires
                        0 <= r <= c <= pre.spec_hits(),
                        f >= 1,
                ;
                if pre.spec_hits() == 0 {
                    assert(c == 0 && r == 0);
                }
            }
            if self.hits > 0 {
                let c = self.counters[i].count * fv;
                let r = self.counters[i].error * fv;
                self.counters[i].count = c;
                self.counters[i].error = r;
                proof {
                    assert(self.slots() =~= before.update(i as int, (s0[i as int].0, (s0[i as int].1 * f) as u128, (s0[i as int].2 * f) as u128)));
                }
            } else {
                proof {
                    assert(self.slots()[i as int] == (s0[i as int].0, (s0[i as int].1 * f) as u128, (s0[i as int].2 * f) as u128));
                }
            }
            i = i + 1;
        }
        proof {
            assert(self.slots() =~= s0.map_values(|e: (Seq<char>, u128, u128)| (e.0, (e.1 * f) as u128, (e.2 * f) as u128)));
            assert forall|k: Seq<char>| #[trigger] self.true_count(k) == pre.true_count(k) * f by {}
            if pre.hits == 0 {
                assert(pre.hits * f == 0);
            }
            self.lemma_scaled(pre, f);
        }
    }

    /// Carrying a counter to an earlier reference time, as a hit before it
    /// does, changes no decayed result: at every time the hit total and
    /// every slot's count and error normalize to the same values.
    pub proof fn lemma_rebase_keeps_decayed_values(&self, now: u64, mid: Self, t: u64)
        requires
            self.wf(),
            self.rebased_to(now, mid),
            self.spec_hits() * self.rebase_factor(now) <= u128::MAX,
        ensures
            ratio_eq(normalized(mid.spec_decay(), mid.spec_hits() as int, t), normalized(self.spec_decay(), self.spec_hits() as int, t)),
            forall|i: int| 0 <= i < self.slots().len() ==> {
                &&& ratio_eq(normalized(mid.spec_decay(), (#[trigger] mid.slots()[i]).1 as int, t), normalized(self.spec_decay(), self.slots()[i].1 as int, t))
                &&& ratio_eq(normalized(mid.spec_decay(), mid.slots()[i].2 as int, t), normalized(self.spec_decay(), self.slots()[i].2 as int, t))
            },
    {
        let fd = self.spec_decay();
        let f = self.rebase_factor(now);
        let s = self.slots();
        if fd.spec_g().spec_base() > 1 && now < fd.spec_landmark() {
            lemma_with_landmark(fd, now);
            vstd::arithmetic::power::lemma_pow_positive(fd.spec_g().spec_base() as int, (fd.spec_landmark() - now) as nat);
            lemma_normalized_shift(mid.spec_decay(), fd, self.spec_hits() as int, t);
            assert(mid.spec_hits() == f * self.spec_hits()) by (nonlinear_arith)
                requires
                    mid.spec_hits() == self.spec_hits() * f,
            ;
            assert forall|i: int| 0 <= i < s.len() implies {
                &&& ratio_eq(normalized(mid.spec_decay(), (#[trigger] mid.slots()[i]).1 as int, t), normalized(fd, s[i].1 as int, t))
                &&& ratio_eq(normalized(mid.spec_decay(), mid.slots()[i].2 as int, t), normalized(fd, s[i].2 as int, t))
            } by {
                let (c, e) = (s[i].1 as int, s[i].2 as int);
                assert(e <= c <= self.spec_hits());
                assert(e * f <= c * f <= self.spec_hits() * f) by (nonlinear_arith)
                    requires
                        0 <= e <= c <= self.spec_hits(),
                        f >= 1,
                ;
                assert(mid.slots()[i].1 == f * c && mid.slots()[i].2 == f * e) by (nonlinear_arith)
                    requires
                        mid.slots()[i].1 == c * f,
                        mid.slots()[i].2 == e * f,
                        e * f <= u128::MAX,
                        c * f <= u128::MAX,
                ;
                lemma_normalized_shift(mid.spec_decay(), fd, c, t);
                lemma_normalized_shift(mid.spec_decay(), fd, e, t);
            }
        } else {
            assert forall|i: int| 0 <= i < s.len() implies (#[trigger] mid.slots()[i]) == s[i] by {}
        }
    }

    /// Multiplying every quantity by the same positive factor keeps the
    /// invariant.
    proof fn lemma_scaled(&self, pre: Self, f: int)
        requires
            pre.wf(),
            f >= 1,
            self.spec_decay().wf(),
            self.spec_capacity() == pre.spec_capacity(),
            self.spec_hits() == pre.spec_hits() * f,
            self.slots() == pre.slots().map_values(|e: (Seq<char>, u128, u128)| (e.0, (e.1 * f) as u128, (e.2 * f) as u128)),
            forall|k: Seq<char>| #[trigger] self.true_count(k) == pre.true_count(k) * f,
        ensures
            self.wf(),
    {
        reveal(BTreeSpaceSaving::errors_bounded);
        let s = self.slots();
        let s0 = pre.slots();
        assert forall|i: int| 0 <= i < s0.len() implies (#[trigger] s0[i]).1 * f <= u128::MAX by {
            assert(s0[i].1 <= pre.spec_hits());
            assert(s0[i].1 * f <= pre.spec_hits() * f) by (nonlinear_arith)
                requires
                    s0[i].1 <= pre.spec_hits(),
                    f >= 1,
            ;
        }
        assert forall|i: int| 0 <= i < s.len() implies (#[trigger] s[i]).0 == s0[i].0 && s[i].1 == s0[i].1 * f && s[i].2 == s0[i].2 * f by {
            assert(s0[i].2 <= s0[i].1 <= pre.spec_hits());
            assert(s0[i].1 * f <= pre.spec_hits() * f) by (nonlinear_arith)
                requires
                    s0[i].1 <= pre.spec_hits(),
                    f >= 1,
            ;
            assert(s0[i].2 * f <= s0[i].1 * f) by (nonlinear_arith)
                requires
                    s0[i].2 <= s0[i].1,
                    f >= 1,
            ;
        }
        assert forall|k: Seq<char>| self.tracks(k) <==> pre.tracks(k) by {
            if self.tracks(k) {
                let i = self.slot_of(k);
                assert(s0[i].0 == k);
            }
            if pre.tracks(k) {
                let i = pre.slot_of(k);
                assert(s[i].0 == k);
            }
        }
        assert forall|i: int, j: int| 0 <= i < j < s.len() implies #[trigger] s[i].0 != #[trigger] s[j].0 by {
            assert(s0[i].0 != s0[j].0);
        }
        assert forall|i: int| 0 <= i < s.len() implies {
            &&& (#[trigger] s[i]).2 <= s[i].1 <= self.spec_hits()
            &&& lower(s[i]) <= self.true_count(s[i].0) <= s[i].1
        } by {
            let e = s0[i];
            let t = pre.true_count(e.0) as int;
            assert(e.2 <= e.1 <= pre.spec_hits());
            assert(lower(e) <= t <= e.1);
            let (c, r, h) = (e.1 as int, e.2 as int, pre.spec_hits() as int);
            assert(r * f <= c * f <= h * f && c * f - r * f <= t * f <= c * f) by (nonlinear_arith)
                requires
                    r <= c <= h,
                    c - r <= t <= c,
                    f >= 1,
            ;
        }
        assert forall|k: Seq<char>, i: int| !self.tracks(k) && 0 <= i < s.len() implies #[trigger] self.true_count(k) <= (#[trigger] s[i]).1 by {
            assert(pre.true_count(k) <= s0[i].1);
            let (t, c) = (pre.true_count(k) as int, s0[i].1 as int);
            assert(t * f <= c * f) by (nonlinear_arith)
                requires
                    t <= c,
                    f >= 1,
            ;
        }
        if s.len() < self.spec_capacity() {
            assert forall|k: Seq<char>| !self.tracks(k) implies #[trigger] self.true_count(k) == 0 by {
                assert(pre.true_count(k) == 0);
            }
        }
        lemma_total_scaled(s0, f);
        let k = pre.spec_capacity() as int;
        assert forall|i: int| 0 <= i < s.len() implies (#[trigger] s[i]).2 * self.spec_capacity() <= self.spec_hits() by {
            let (e, h) = (s0[i].2 as int, pre.spec_hits() as int);
            assert(e * k <= h);
            assert((e * f) * k <= h * f) by (nonlinear_arith)
                requires
                    e * k <= h,
                    f >= 1,
            ;
        }
    }

    /// Counts one occurrence of `key` at time `now`, weighted by its static
    /// weight w. A key with a slot adds w to its count. A key without one
    /// takes a free slot with count w and error 0; when none is free it
    /// takes over a lowest-ranked slot, whose count becomes its error and,
    /// plus w, its count. Returns the key's new count and error. Where g is
    /// `b^a` and `now` comes before the reference time, every quantity is
    /// first carried exactly to `now` as reference.
    pub fn hit(&mut self, key: String, now: u64) -> (r: Count)
        requires
            old(self).wf(),
            old(self).aligned(),
            old(self).can_hit(now),
        ensures
            final(self).wf(),
            final(self).aligned(),
            final(self).spec_earliest() == Some(earlier(old(self).spec_earliest(), now)),
            exists|mid: Self| #[trigger] old(self).rebased_to(now, mid) && mid.hit_post(key@, now, *final(self), r),
    {
        let ghost pre = *self;
        self.earliest = match self.earliest {
            Some(e) => if now < e { Some(now) } else { Some(e) },
            None => Some(now),
        };
        proof {
            reveal(BTreeSpaceSaving::errors_bounded);
            assert(self.slots() =~= pre.slots());
            assert(forall|k: Seq<char>| #[trigger] self.true_count(k) == pre.true_count(k));
            assert(forall|k: Seq<char>| self.tracks(k) == pre.tracks(k));
            assert(self.spec_hits() == pre.spec_hits());
            assert(self.spec_decay() == pre.spec_decay());
            assert(self.spec_capacity() == pre.spec_capacity());
            assert(self.spec_landmark() == pre.spec_landmark());
            assert(self.rebase_factor(now) == pre.rebase_factor(now));
            assert(self.can_hit(now));
        }
        let ghost pre2 = *self;
        let b = self.decay.g().base();
        if b > 1 && now < self.decay.landmark() {
            self.rebase(now);
        } else {
            proof {
                let s0 = self.slots();
                assert(s0.map_values(|e: (Seq<char>, u128, u128)| (e.0, (e.1 * 1) as u128, (e.2 * 1) as u128)) =~= s0);
                assert(self.rebase_factor(now) == 1);
                assert(forall|k: Seq<char>| #[trigger] self.true_count(k) == self.true_count(k) * 1);
                assert(self.spec_hits() * 1 == self.spec_hits());
                assert(rebased(self.spec_decay(), now) == self.spec_decay());
            }
        }
        let ghost mid = *self;
        proof {
            assert(pre2.rebased_to(now, mid));
            assert(mid.spec_hits() + mid.spec_decay().g_at(now) <= u128::MAX);
        }
        let r = self.hit_here(key, now);
        proof {
            assert(pre.rebased_to(now, mid));
            lemma_hit_aligned(pre, mid, *self, key@, now, r);
        }
        r
    }

    /// The hit of `key` at `now` against the current reference time.
    #[verifier::spinoff_prover]
    fn hit_here(&mut self, key: String, now: u64) -> (r: Count)
        requires
            old(self).wf(),
            old(self).spec_decay().fits_at(now),
            old(self).spec_hits() + old(self).spec_decay().g_at(now) <= u128::MAX,
        ensures
            old(self).hit_post(key@, now, *final(self), r),
            final(self).spec_earliest() == old(self).spec_earliest(),
    {
        proof {
            reveal(BTreeSpaceSaving::errors_bounded);
        }
        let w = self.decay.static_weight(&now);
        let ghost pre = *self;
        let ghost s0 = self.slots();
        let ghost wi = w as nat;
        self.hits = self.hits + w as u128;
        self.truth = Ghost(self.truth@.insert(key@, pre.true_count(key@) + wi));
        assert forall|k: Seq<char>| #[trigger] self.true_count(k) == pre.true_count(k) + (if k == key@ { wi } else { 0 }) by {
        }
        let ghost mut j: int = 0;
        let result: Count;
        match self.find(&key) {
            Some(t) => {
                proof {
                    j = t as int;
                    assert(pre.slot_of(key@) == t as int);
                }
                proof {
                    assert(s0[t as int].1 <= pre.spec_hits());
                }
                let count = self.counters[t].count + w as u128;
                let error = self.counters[t].error;
                self.counters[t] = Counter { key, count, error };
                result = Count { count, error };
                proof {
                    assert(self.slots() =~= s0.update(t as int, (s0[t as int].0, count, error)));
                    lemma_total_update(s0, t as int, (s0[t as int].0, count, error));
                }
            },
            None => {
                if self.counters.len() < self.capacity {
                    self.counters.push(Counter { key, count: w as u128, error: 0 });
                    result = Count { count: w as u128, error: 0 };
                    proof {
                        j = s0.len() as int;
                        assert(self.slots() =~= s0.push((key@, w as u128, 0u128)));
                        assert(self.slots().drop_last() =~= s0);
                    }
                } else {
                    let m = self.min_slot();
                    proof {
                        assert(s0[m as int].1 <= pre.spec_hits());
                    }
                    let floor = self.counters[m].count;
                    let count = floor + w as u128;
                    self.counters[m] = Counter { key, count, error: floor };
                    result = Count { count, error: floor };
                    proof {
                        j = m as int;
                        assert(self.slots() =~= s0.update(m as int, (key@, count, floor)));
                        lemma_total_update(s0, m as int, (key@, count, floor));
                        assert forall|i: int| 0 <= i < s0.len() implies floor <= (#[trigger] s0[i]).1 by {
                            assert(rank_ge(s0[i], s0[m as int]));
                        }
                        lemma_total_at_least(s0, floor as int);
                        assert(floor * pre.spec_capacity() == s0.len() * floor) by (nonlinear_arith)
                            requires
                                s0.len() == pre.spec_capacity(),
                        ;
                    }
                }
            },
        }
        proof {
            let s = self.slots();
            let cap = pre.spec_capacity();
            let present = pre.tracks(key@);
            let full = s0.len() == cap;
            assert(s[j].0 == key@);
            assert(self.tracks(key@));
            assert(self.slot_of(key@) == j);
            assert(s == pre.slots_after_hit(key@, wi, j));
            assert(present ==> s.len() == s0.len() && s[j] == (key@, (s0[j].1 + wi) as u128, s0[j].2));
            assert(!present && !full ==> s.len() == s0.len() + 1 && j == s0.len() && s[j] == (key@, wi as u128, 0u128));
            assert(!present && full ==> s.len() == s0.len() && s[j] == (key@, (s0[j].1 + wi) as u128, s0[j].1) && pre.is_min_slot(j));
            assert(forall|i: int| 0 <= i < s0.len() && i != j ==> #[trigger] s[i] == s0[i]);
            assert(0 <= j < s.len());
            assert((!old(self).tracks(key@) && old(self).slots().len() == old(self).spec_capacity() ==> old(self).is_min_slot(j))
                && self.slots() == old(self).slots_after_hit(key@, old(self).spec_decay().g_at(now), j));
            assert forall|i: int, l: int| 0 <= i < l < s.len() implies #[trigger] s[i].0 != #[trigger] s[l].0 by {
                if i != j && l != j {
                    assert(s[i] == s0[i] && s[l] == s0[l]);
                } else if present {
                    assert(s[i].0 == s0[i].0 && s[l].0 == s0[l].0);
                } else if i == j {
                    assert(s[l] == s0[l]);
                } else {
                    assert(s[i] == s0[i]);
                }
            }
            assert forall|i: int| 0 <= i < s.len() implies {
                &&& (#[trigger] s[i]).2 <= s[i].1 <= self.spec_hits()
                &&& lower(s[i]) <= self.true_count(s[i].0) <= s[i].1
            } by {
                if i != j {
                    assert(s[i] == s0[i]);
                    assert(s0[i].0 != key@);
                } else if !present {
                    if !full {
                        assert(pre.true_count(key@) == 0);
                    } else {
                        assert(pre.true_count(key@) <= s0[j].1);
                    }
                }
            }
            assert forall|k: Seq<char>, i: int| !self.tracks(k) && 0 <= i < s.len() implies #[trigger] self.true_count(k) <= (#[trigger] s[i]).1 by {
                assert(k != key@);
                if pre.tracks(k) {
                    let t = pre.slot_of(k);
                    assert(s0[t].0 == k);
                    if t != j {
                        assert(s[t] == s0[t]);
                    }
                    assert(t == j && !present && full);
                    assert(pre.true_count(s0[t].0) <= s0[t].1);
                    if i != j {
                        assert(s[i] == s0[i]);
                        assert(rank_ge(s0[i], s0[j]));
                    }
                } else if i != j {
                    assert(s[i] == s0[i]);
                    assert(pre.true_count(k) <= s0[i].1);
                } else if present || full {
                    assert(pre.true_count(k) <= s0[j].1);
                } else {
                    assert(pre.true_count(k) == 0);
                }
            }
            if s.len() < cap {
                assert forall|k: Seq<char>| !self.tracks(k) implies #[trigger] self.true_count(k) == 0 by {
                    assert(k != key@);
                    assert(self.true_count(k) == pre.true_count(k));
                    if pre.tracks(k) {
                        let t = pre.slot_of(k);
                        assert(s0[t].0 == k);
                        if t != j {
                            assert(s[t] == s0[t]);
                        }
                    }
                }
            }
        }
        result
    }

    /// The position in `rest` of a highest-ranked slot among those listed.
    fn best(&self, rest: &Vec<usize>) -> (m: usize)
        requires
            rest.len() > 0,
            forall|c: int| 0 <= c < rest.len() ==> (#[trigger] rest[c]) < self.slots().len(),
        ensures
            m < rest.len(),
            forall|c: int| 0 <= c < rest.len() ==> rank_ge(self.slots()[rest[m as int] as int], self.slots()[#[trigger] rest[c] as int]),
    {
        let mut m: usize = 0;
        let mut c: usize = 1;
        while c < rest.len()
            invariant
                1 <= c <= rest.len(),
                m < c,
                forall|c: int| 0 <= c < rest.len() ==> (#[trigger] rest[c]) < self.slots().len(),
                forall|d: int| 0 <= d < c ==> rank_ge(self.slots()[rest[m as int] as int], self.slots()[#[trigger] rest[d] as int]),
            decreases rest.len() - c,
        {
            let x = &self.counters[rest[c]];
            let y = &self.counters[rest[m]];
            if x.count > y.count || (x.count == y.count && x.error > y.error) {
                m = c;
            }
            c = c + 1;
        }
        m
    }

    /// Slots in ranked order, highest first: up to `k` of them, and, when
    /// `above` is given, only while their count exceeds it.
    #[verifier::spinoff_prover]
    fn select(&self, k: usize, above: Option<u128>) -> (sel: Vec<usize>)
        requires
            self.wf(),
        ensures
            sel.len() <= k,
            sel.len() <= self.slots().len(),
            sel.len() == self.slots().len() ==> forall|x: usize| x < self.slots().len() ==> #[trigger] sel@.contains(x),
            sel@.no_duplicates(),
            forall|a: int| 0 <= a < sel.len() ==> (#[trigger] sel[a]) < self.slots().len(),
            forall|a: int, b: int| 0 <= a < b < sel.len() ==> rank_ge(self.slots()[#[trigger] sel[a] as int], self.slots()[#[trigger] sel[b] as int]),
            forall|a: int, i: int| 0 <= a < sel.len() && 0 <= i < self.slots().len() && !sel@.contains(i as usize)
                ==> rank_ge(self.slots()[#[trigger] sel[a] as int], #[trigger] self.slots()[i]),
            above matches Some(t) ==> forall|a: int| 0 <= a < sel.len() ==> self.slots()[#[trigger] sel[a] as int].1 > t,
            sel.len() == k || sel.len() == self.slots().len() || (above matches Some(t) && forall|i: int|
                0 <= i < self.slots().len() && !sel@.contains(i as usize) ==> (#[trigger] self.slots()[i]).1 <= t),
    {
        let ghost s = self.slots();
        let n = self.counters.len();
        let mut rest: Vec<usize> = Vec::new();
        let mut i: usize = 0;
        while i < n
            invariant
                n == s.len(),
                i <= n,
                rest@ == Seq::new(i as nat, |c: int| c as usize),
            decreases n - i,
        {
            rest.push(i);
            i = i + 1;
            proof {
                assert(rest@ =~= Seq::new(i as nat, |c: int| c as usize));
            }
        }
        let mut sel: Vec<usize> = Vec::new();
        let mut stopped = false;
        proof {
            assert forall|x: usize| x < n implies rest@.contains(x) by {
                assert(rest[x as int] == x);
            }
        }
        while sel.len() < k && rest.len() > 0 && !stopped
            invariant
                n == s.len(),
                s == self.slots(),
                self.wf(),
                sel.len() <= k,
                rest.len() + sel.len() == n,
                rest@.no_duplicates(),
                sel@.no_duplicates(),
                forall|c: int| 0 <= c < rest.len() ==> (#[trigger] rest[c]) < n,
                forall|a: int| 0 <= a < sel.len() ==> (#[trigger] sel[a]) < n,
                forall|x: usize| x < n ==> (rest@.contains(x) <==> !sel@.contains(x)),
                forall|a: int, b: int| 0 <= a < b < sel.len() ==> rank_ge(s[#[trigger] sel[a] as int], s[#[trigger] sel[b] as int]),
                forall|a: int, c: int| 0 <= a < sel.len() && 0 <= c < rest.len() ==> rank_ge(s[#[trigger] sel[a] as int], s[#[trigger] rest[c] as int]),
                above matches Some(t) ==> forall|a: int| 0 <= a < sel.len() ==> s[#[trigger] sel[a] as int].1 > t,
                stopped ==> (above matches Some(t) && forall|c: int| 0 <= c < rest.len() ==> s[#[trigger] rest[c] as int].1 <= t),
            decreases rest.len() + (if stopped { 0int } else { 1int }),
        {
            let m = self.best(&rest);
            let x = rest[m];
            let keep = match above {
                Some(t) => self.counters[x].count > t,
                None => true,
            };
            if keep {
                let ghost old_rest = rest@;
                let ghost old_sel = sel@;
                rest.remove(m);
                sel.push(x);
                proof {
                    assert(old_rest.remove(m as int) == rest@);
                    assert forall|c: int| 0 <= c < rest.len() implies rest[c] == old_rest[if c < m { c } else { c + 1 }] by {}
                    assert forall|y: usize| y < n implies (rest@.contains(y) <==> !sel@.contains(y)) by {
                        assert(sel@.contains(y) <==> (y == x || old_sel.contains(y))) by {
                            if sel@.contains(y) && y != x {
                                let a = sel@.index_of(y);
                                assert(old_sel[a] == y);
                            }
                            if old_sel.contains(y) {
                                let a = old_sel.index_of(y);
                                assert(sel[a] == y);
                            }
                            assert(sel[sel.len() - 1] == x);
                        }
                        assert(rest@.contains(y) <==> (y != x && old_rest.contains(y))) by {
                            if rest@.contains(y) {
                                let c = rest@.index_of(y);
                                let oc = if c < m { c } else { c + 1 };
                                assert(old_rest[oc] == y);
                                assert(oc != m);
                            }
                            if old_rest.contains(y) && y != x {
                                let c = old_rest.index_of(y);
                                assert(c != m);
                                assert(rest[if c < m { c } else { c - 1 }] == y);
                            }
                        }
                    }
                    assert forall|a: int, b: int| 0 <= a < b < sel.len() implies sel[a] != sel[b] by {
                        if b == sel.len() - 1 {
                            assert(old_sel.contains(sel[a]));
                        }
                    }
                    assert forall|c1: int, c2: int| 0 <= c1 < c2 < rest.len() implies rest[c1] != rest[c2] by {
                        assert(rest[c1] == old_rest[if c1 < m { c1 } else { c1 + 1 }]);
                        assert(rest[c2] == old_rest[if c2 < m { c2 } else { c2 + 1 }]);
                    }
                }
            } else {
                stopped = true;
            }
        }
        proof {
            if sel.len() == n {
                assert forall|x: usize| x < s.len() implies #[trigger] sel@.contains(x) by {
                    if !sel@.contains(x) {
                        assert(rest@.contains(x));
                    }
                }
            }
            assert forall|a: int, i: int| 0 <= a < sel.len() && 0 <= i < s.len() && !sel@.contains(i as usize)
                implies rank_ge(s[#[trigger] sel[a] as int], #[trigger] s[i]) by {
                assert(rest@.contains(i as usize));
                let c = rest@.index_of(i as usize);
                assert(rest[c] == i);
            }
            if stopped {
                assert forall|i: int| 0 <= i < s.len() && !sel@.contains(i as usize) implies (#[trigger] s[i]).1 <= above->0 by {
                    assert(rest@.contains(i as usize));
                    let c = rest@.index_of(i as usize);
                    assert(rest[c] == i);
                }
            }
        }
        sel
    }

    /// Slot `i` is the slot of its key.
    proof fn lemma_entry(&self, i: int)
        requires
            self.wf(),
            0 <= i < self.slots().len(),
        ensures
            self.tracks(self.slots()[i].0),
            self.slot_of(self.slots()[i].0) == i,
            self.entry(self.slots()[i].0) == self.slots()[i],
    {
        let k = self.slots()[i].0;
        assert(self.slots()[i].0 == k);
        let j = self.slot_of(k);
        if j != i {
            if i < j {
                assert(self.slots()[i].0 != self.slots()[j].0);
            } else {
                assert(self.slots()[j].0 != self.slots()[i].0);
            }
        }
    }

    /// The keys of the slots listed in `p` are leading when the slots are
    /// distinct, ranked, and rank at least as high as every slot not listed.
    proof fn lemma_leading(&self, p: Seq<usize>, keys: Seq<Seq<char>>)
        requires
            self.wf(),
            p.no_duplicates(),
            forall|a: int| 0 <= a < p.len() ==> (#[trigger] p[a]) < self.slots().len(),
            forall|a: int, b: int| 0 <= a < b < p.len() ==> rank_ge(self.slots()[#[trigger] p[a] as int], self.slots()[#[trigger] p[b] as int]),
            forall|a: int, i: int| 0 <= a < p.len() && 0 <= i < self.slots().len() && !p.contains(i as usize)
                ==> rank_ge(self.slots()[#[trigger] p[a] as int], #[trigger] self.slots()[i]),
            keys.len() == p.len(),
            forall|a: int| 0 <= a < p.len() ==> #[trigger] keys[a] == self.slots()[p[a] as int].0,
        ensures
            self.leading(keys),
            forall|a: int| 0 <= a < p.len() ==> self.entry(#[trigger] keys[a]) == self.slots()[p[a] as int],
            forall|y: Seq<char>| self.tracks(y) && !keys.contains(y) ==> !p.contains(self.slot_of(y) as usize),
    {
        let s = self.slots();
        assert forall|a: int| 0 <= a < p.len() implies self.entry(#[trigger] keys[a]) == s[p[a] as int] && self.tracks(keys[a]) by {
            self.lemma_entry(p[a] as int);
        }
        assert forall|a: int, b: int| 0 <= a < b < keys.len() implies keys[a] != keys[b] by {
            assert(p[a] != p[b]);
            if p[a] < p[b] {
                assert(s[p[a] as int].0 != s[p[b] as int].0);
            } else {
                assert(s[p[b] as int].0 != s[p[a] as int].0);
            }
        }
        assert forall|y: Seq<char>| self.tracks(y) && !keys.contains(y) implies !p.contains(self.slot_of(y) as usize) by {
            let i = self.slot_of(y);
            if p.contains(i as usize) {
                let a = p.index_of(i as usize);
                assert(keys[a] == y);
            }
        }
        assert forall|a: int, y: Seq<char>| 0 <= a < keys.len() && self.tracks(y) && !keys.contains(y) implies rank_ge(self.entry(#[trigger] keys[a]), #[trigger] self.entry(y)) by {
            let i = self.slot_of(y);
            assert(!p.contains(i as usize));
            assert(rank_ge(s[p[a] as int], s[i]));
        }
    }

    /// The first `count` slots of a selection keep its properties.
    proof fn lemma_prefix(&self, sel: Seq<usize>, count: int)
        requires
            self.wf(),
            0 <= count <= sel.len(),
            sel.no_duplicates(),
            forall|a: int| 0 <= a < sel.len() ==> (#[trigger] sel[a]) < self.slots().len(),
            forall|a: int, b: int| 0 <= a < b < sel.len() ==> rank_ge(self.slots()[#[trigger] sel[a] as int], self.slots()[#[trigger] sel[b] as int]),
            forall|a: int, i: int| 0 <= a < sel.len() && 0 <= i < self.slots().len() && !sel.contains(i as usize)
                ==> rank_ge(self.slots()[#[trigger] sel[a] as int], #[trigger] self.slots()[i]),
        ensures
            ({
                let p = sel.subrange(0, count);
                &&& p.no_duplicates()
                &&& forall|a: int| 0 <= a < p.len() ==> (#[trigger] p[a]) < self.slots().len()
                &&& forall|a: int, b: int| 0 <= a < b < p.len() ==> rank_ge(self.slots()[#[trigger] p[a] as int], self.slots()[#[trigger] p[b] as int])
                &&& forall|a: int, i: int| 0 <= a < p.len() && 0 <= i < self.slots().len() && !p.contains(i as usize)
                    ==> rank_ge(self.slots()[#[trigger] p[a] as int], #[trigger] self.slots()[i])
            }),
    {
        let s = self.slots();
        let p = sel.subrange(0, count);
        assert forall|a: int, i: int| 0 <= a < p.len() && 0 <= i < s.len() && !p.contains(i as usize)
            implies rank_ge(s[#[trigger] p[a] as int], #[trigger] s[i]) by {
            assert(p[a] == sel[a]);
            if sel.contains(i as usize) {
                let c = sel.index_of(i as usize);
                if c < count {
                    assert(p[c] == i);
                }
                assert(rank_ge(s[sel[a] as int], s[sel[c] as int]));
            }
        }
        assert forall|a: int, b: int| 0 <= a < b < p.len() implies p[a] != p[b] by {
            assert(sel[a] != sel[b]);
        }
    }

    /// After the first `k` slots of a selection of more than `k`, slot
    /// `sel[k]` has the highest count among the keys outside the prefix.
    proof fn lemma_next(&self, sel: Seq<usize>, k: int, keys: Seq<Seq<char>>)
        requires
            self.wf(),
            0 <= k < sel.len(),
            sel.no_duplicates(),
            forall|a: int| 0 <= a < sel.len() ==> (#[trigger] sel[a]) < self.slots().len(),
            forall|a: int, b: int| 0 <= a < b < sel.len() ==> rank_ge(self.slots()[#[trigger] sel[a] as int], self.slots()[#[trigger] sel[b] as int]),
            forall|a: int, i: int| 0 <= a < sel.len() && 0 <= i < self.slots().len() && !sel.contains(i as usize)
                ==> rank_ge(self.slots()[#[trigger] sel[a] as int], #[trigger] self.slots()[i]),
            keys.len() == k,
            forall|a: int| 0 <= a < k ==> #[trigger] keys[a] == self.slots()[sel[a] as int].0,
        ensures
            self.tracks(self.slots()[sel[k] as int].0),
            !keys.contains(self.slots()[sel[k] as int].0),
            self.entry(self.slots()[sel[k] as int].0) == self.slots()[sel[k] as int],
            forall|y: Seq<char>| self.tracks(y) && !keys.contains(y) ==> #[trigger] self.entry(y).1 <= self.slots()[sel[k] as int].1,
    {
        let s = self.slots();
        self.lemma_entry(sel[k] as int);
        if keys.contains(s[sel[k] as int].0) {
            let b = keys.index_of(s[sel[k] as int].0);
            assert(sel[b] != sel[k]);
            self.lemma_entry(sel[b] as int);
        }
        assert forall|y: Seq<char>| self.tracks(y) && !keys.contains(y) implies #[trigger] self.entry(y).1 <= s[sel[k] as int].1 by {
            let i = self.slot_of(y);
            if i != sel[k] as int {
                if sel.contains(i as usize) {
                    let c = sel.index_of(i as usize);
                    if c < k {
                        assert(keys[c] == y);
                    }
                    assert(rank_ge(s[sel[k] as int], s[sel[c] as int]));
                } else {
                    assert(rank_ge(s[sel[k] as int], s[i]));
                }
            }
        }
    }

    /// A guaranteed top list is exact: when no key outside `keys` that has
    /// a slot counts more than the least guaranteed lower bound of `keys`,
    /// and such a key exists, every key of `keys` has a true count at least
    /// that of every key outside it.
    pub proof fn lemma_top_guarantee(&self, keys: Seq<Seq<char>>)
        requires
            self.wf(),
            self.leading(keys),
            exists|z: Seq<char>| self.tracks(z) && !keys.contains(z),
            forall|y: Seq<char>| self.tracks(y) && !keys.contains(y) ==> #[trigger] self.entry(y).1 <= self.min_lower(keys),
        ensures
            forall|x: Seq<char>, y: Seq<char>| keys.contains(x) && !keys.contains(y) ==> self.true_count(x) >= self.true_count(y),
    {
        let s = self.slots();
        self.lemma_min_lower_bounds(keys);
        let z = choose|z: Seq<char>| self.tracks(z) && !keys.contains(z);
        assert(self.entry(z).1 <= self.min_lower(keys));
        assert forall|x: Seq<char>, y: Seq<char>| keys.contains(x) && !keys.contains(y) implies self.true_count(x) >= self.true_count(y) by {
            let b = keys.index_of(x);
            assert(self.tracks(keys[b]));
            let t = self.slot_of(x);
            assert(s[t].0 == x);
            assert(lower(s[t]) <= self.true_count(s[t].0));
            assert(self.min_lower(keys) <= lower(self.entry(keys[b])));
            if self.tracks(y) {
                let i = self.slot_of(y);
                assert(s[i].0 == y);
                assert(self.true_count(s[i].0) <= s[i].1);
                assert(self.entry(y).1 <= self.min_lower(keys));
            } else {
                let i = self.slot_of(z);
                assert(s[i].0 == z);
                assert(self.true_count(y) <= s[i].1);
            }
        }
    }

    /// The `k` keys of highest rank, fewer when fewer have slots. They come
    /// flagged as guaranteed (`Ok`) exactly when their guaranteed lower
    /// bounds are non-increasing in the order given, and the next counter in
    /// rank exists and its count does not exceed the lowest of those bounds.
    /// A guaranteed answer is the exact top `k` by true count.
    #[verifier::rlimit(100)]
    #[verifier::spinoff_prover]
    pub fn top(&self, k: usize) -> (r: Result<Vec<String>, Vec<String>>)
        requires
            self.wf(),
        ensures
            self.leading(keys_of(r)),
            keys_of(r).len() == if k < self.slots().len() { k as int } else { self.slots().len() as int },
            r is Ok <==> {
                let keys = keys_of(r);
                &&& forall|a: int| 0 <= a < keys.len() - 1 ==> lower(self.entry(#[trigger] keys[a])) >= lower(self.entry(keys[a + 1]))
                &&& self.slots().len() > k
                &&& forall|y: Seq<char>| self.tracks(y) && !keys.contains(y) ==> #[trigger] self.entry(y).1 <= self.min_lower(keys)
            },
            r is Ok ==> forall|x: Seq<char>, y: Seq<char>| #[trigger] keys_of(r).contains(x) && !#[trigger] keys_of(r).contains(y)
                ==> self.true_count(x) >= self.true_count(y),
    {
        let ghost s = self.slots();
        let n = self.counters.len();
        let limit = if k < n { k + 1 } else { k };
        let sel = self.select(limit, None);
        let count = if k < n { k } else { sel.len() };
        let mut keys: Vec<String> = Vec::new();
        let mut ordered = true;
        let mut floor: u128 = u128::MAX;
        let mut a: usize = 0;
        while a < count
            invariant
                s == self.slots(),
                self.wf(),
                count <= sel.len(),
                forall|b: int| 0 <= b < sel.len() ==> (#[trigger] sel[b]) < s.len(),
                a <= count,
                keys.len() == a,
                forall|b: int| 0 <= b < a ==> #[trigger] keys[b]@ == s[sel[b] as int].0,
                forall|b: int| 0 <= b < a ==> self.entry(#[trigger] keys[b]@) == s[sel[b] as int],
                ordered <==> forall|b: int| 0 <= b < a - 1 ==> lower(self.entry(#[trigger] keys[b]@)) >= lower(self.entry(keys[b + 1]@)),
                floor == self.min_lower(keys@.map_values(|k: String| k@)),
            decreases count - a,
        {
            let c = &self.counters[sel[a]];
            proof {
                assert(s[sel[a as int] as int].2 <= s[sel[a as int] as int].1);
                self.lemma_entry(sel[a as int] as int);
            }
            let low = c.count - c.error;
            let ghost before = keys@.map_values(|k: String| k@);
            let ghost prev_keys = keys@;
            if a > 0 {
                let p = &self.counters[sel[a - 1]];
                proof {
                    assert(s[sel[a - 1] as int].2 <= s[sel[a - 1] as int].1);
                }
                if p.count - p.error < low {
                    ordered = false;
                }
            }
            keys.push(c.key.clone());
            proof {
                let after = keys@.map_values(|k: String| k@);
                assert(after.drop_last() =~= before);
                assert(after.last() == s[sel[a as int] as int].0);
                assert(forall|b: int| 0 <= b < a ==> keys[b] == prev_keys[b]);
            }
            if low < floor {
                floor = low;
            }
            a = a + 1;
        }
        let ghost ks = keys@.map_values(|k: String| k@);
        proof {
            self.lemma_prefix(sel@, count as int);
            let p = sel@.subrange(0, count as int);
            assert forall|b: int| 0 <= b < p.len() implies #[trigger] ks[b] == s[p[b] as int].0 by {}
            self.lemma_leading(p, ks);
            if k < n {
                self.lemma_next(sel@, k as int, ks);
            }
        }
        let bounded = k < n && self.counters[sel[k]].count <= floor;
        if ordered && bounded {
            proof {
                let z = s[sel[k as int] as int].0;
                assert(self.tracks(z) && !ks.contains(z));
                self.lemma_top_guarantee(ks);
            }
            Ok(keys)
        } else {
            proof {
                if k < n && !bounded {
                    let z = s[sel[k as int] as int].0;
                    assert(self.tracks(z) && !ks.contains(z) && self.entry(z).1 > self.min_lower(ks));
                }
            }
            Err(keys)
        }
    }

    /// The least guaranteed lower bound of `keys` is at most that of each
    /// of them, and, for any keys at all, one of theirs.
    proof fn lemma_min_lower_bounds(&self, keys: Seq<Seq<char>>)
        ensures
            forall|a: int| 0 <= a < keys.len() ==> self.min_lower(keys) <= lower(self.entry(#[trigger] keys[a])),
            keys.len() > 0 ==> exists|a: int| 0 <= a < keys.len() && self.min_lower(keys) == lower(self.entry(#[trigger] keys[a])),
        decreases keys.len(),
    {
        if keys.len() > 0 {
            let init = keys.drop_last();
            self.lemma_min_lower_bounds(init);
            assert forall|a: int| 0 <= a < keys.len() implies self.min_lower(keys) <= lower(self.entry(#[trigger] keys[a])) by {
                if a < keys.len() - 1 {
                    assert(init[a] == keys[a]);
                }
            }
            if init.len() > 0 && self.min_lower(keys) == self.min_lower(init) {
                let a = choose|a: int| 0 <= a < init.len() && self.min_lower(init) == lower(self.entry(#[trigger] init[a]));
                assert(keys[a] == init[a]);
            } else {
                let last = lower(self.entry(keys.last()));
                let rest = self.min_lower(init);
                assert(self.min_lower(keys) == if last < rest { last } else { rest });
                assert(last <= u128::MAX);
            }
        }
    }

    /// `ceil(num / den * hits)`, the count that a frequent key exceeds.
    pub open spec fn threshold(&self, num: u64, den: u64) -> int {
        ceil_div(num * self.spec_hits(), den as int)
    }

    /// A guaranteed list of frequent keys is exact: when every key of
    /// `keys` has a guaranteed lower bound above `t` and every other key
    /// with a slot a count no more than `t`, the keys of `keys` are exactly
    /// those whose true count exceeds `t` among the keys with slots, and
    /// among all keys when some slot is free or lies outside `keys`.
    pub proof fn lemma_frequent_guarantee(&self, keys: Seq<Seq<char>>, t: int)
        requires
            self.wf(),
            self.leading(keys),
            t >= 0,
            forall|x: Seq<char>| #[trigger] keys.contains(x) ==> lower(self.entry(x)) > t,
            forall|y: Seq<char>| self.tracks(y) && !keys.contains(y) ==> #[trigger] self.entry(y).1 <= t,
        ensures
            forall|x: Seq<char>| #[trigger] keys.contains(x) ==> self.true_count(x) > t,
            forall|y: Seq<char>| self.tracks(y) && !#[trigger] keys.contains(y) ==> self.true_count(y) <= t,
            self.slots().len() < self.spec_capacity() || keys.len() < self.slots().len() ==> forall|y: Seq<char>|
                !#[trigger] keys.contains(y) ==> self.true_count(y) <= t,
    {
        let s = self.slots();
        assert forall|x: Seq<char>| #[trigger] keys.contains(x) implies self.true_count(x) > t by {
            let b = keys.index_of(x);
            assert(self.tracks(keys[b]));
            let i = self.slot_of(x);
            assert(s[i].0 == x);
            assert(lower(s[i]) <= self.true_count(s[i].0));
        }
        assert forall|y: Seq<char>| self.tracks(y) && !#[trigger] keys.contains(y) implies self.true_count(y) <= t by {
            let i = self.slot_of(y);
            assert(s[i].0 == y);
            assert(self.true_count(s[i].0) <= s[i].1);
            assert(self.entry(y).1 <= t);
        }
        if keys.len() < s.len() {
            let z = choose|z: Seq<char>| self.tracks(z) && !keys.contains(z);
            assert(exists|z: Seq<char>| self.tracks(z) && !keys.contains(z)) by {
                if forall|i: int| 0 <= i < s.len() ==> keys.contains(#[trigger] s[i].0) {
                    self.lemma_keys_cover(keys);
                } else {
                    let i = choose|i: int| 0 <= i < s.len() && !keys.contains(#[trigger] s[i].0);
                    assert(self.tracks(s[i].0));
                }
            }
            assert forall|y: Seq<char>| !#[trigger] keys.contains(y) implies self.true_count(y) <= t by {
                if !self.tracks(y) {
                    let i = self.slot_of(z);
                    assert(s[i].0 == z);
                    assert(self.true_count(y) <= s[i].1);
                    assert(self.entry(z).1 <= t);
                }
            }
        }
    }

    /// Distinct keys that cover the key of every slot are at least as many
    /// as the slots.
    proof fn lemma_keys_cover(&self, keys: Seq<Seq<char>>)
        requires
            self.wf(),
            forall|i: int| 0 <= i < self.slots().len() ==> keys.contains(#[trigger] self.slots()[i].0),
        ensures
            keys.len() >= self.slots().len(),
    {
        let s = self.slots();
        let names = s.map_values(|e: (Seq<char>, u128, u128)| e.0);
        assert(names.no_duplicates()) by {
            assert forall|i: int, j: int| 0 <= i < names.len() && 0 <= j < names.len() && i != j implies names[i] != names[j] by {
                if i < j {
                    assert(s[i].0 != s[j].0);
                } else {
                    assert(s[j].0 != s[i].0);
                }
            }
        }
        assert(names.to_set().subset_of(keys.to_set())) by {
            assert forall|x: Seq<char>| names.to_set().contains(x) implies keys.to_set().contains(x) by {
                let i = names.index_of(x);
                assert(keys.contains(s[i].0));
            }
        }
        names.unique_seq_to_set();
        keys.lemma_cardinality_of_set();
        vstd::set_lib::lemma_len_subset(names.to_set(), keys.to_set());
    }

    /// The keys whose count exceeds `ceil(num / den * hits)`, in ranked
    /// order. They come flagged as guaranteed (`Ok`) exactly when each of
    /// their guaranteed lower bounds exceeds that threshold as well.
    #[verifier::rlimit(100)]
    #[verifier::spinoff_prover]
    pub fn frequent(&self, num: u64, den: u64) -> (r: Result<Vec<String>, Vec<String>>)
        requires
            self.wf(),
            den > 0,
        ensures
            self.leading(keys_of(r)),
            forall|x: Seq<char>| #[trigger] keys_of(r).contains(x) ==> self.entry(x).1 > self.threshold(num, den),
            forall|y: Seq<char>| self.tracks(y) && !#[trigger] keys_of(r).contains(y) ==> self.entry(y).1 <= self.threshold(num, den),
            r is Ok <==> forall|x: Seq<char>| #[trigger] keys_of(r).contains(x) ==> lower(self.entry(x)) > self.threshold(num, den),
            r is Ok ==> forall|x: Seq<char>| #[trigger] keys_of(r).contains(x) ==> self.true_count(x) > self.threshold(num, den),
            r is Ok && (self.slots().len() < self.spec_capacity() || keys_of(r).len() < self.slots().len()) ==> forall|y: Seq<char>|
                !#[trigger] keys_of(r).contains(y) ==> self.true_count(y) <= self.threshold(num, den),
    {
        let ghost s = self.slots();
        let n = self.counters.len();
        let t = match threshold_of(self.hits, num, den) {
            Some(t) => t,
            None => {
                let empty: Vec<String> = Vec::new();
                proof {
                    let ks = keys_of(Ok(empty));
                    assert(ks =~= Seq::empty());
                    assert forall|y: Seq<char>| self.tracks(y) implies #[trigger] self.entry(y).1 <= self.threshold(num, den) by {}
                    self.lemma_frequent_guarantee(ks, self.threshold(num, den));
                }
                return Ok(empty);
            },
        };
        let sel = self.select(n, Some(t));
        let mut keys: Vec<String> = Vec::new();
        let mut sure = true;
        let mut a: usize = 0;
        while a < sel.len()
            invariant
                s == self.slots(),
                self.wf(),
                forall|b: int| 0 <= b < sel.len() ==> (#[trigger] sel[b]) < s.len(),
                a <= sel.len(),
                keys.len() == a,
                forall|b: int| 0 <= b < a ==> #[trigger] keys[b]@ == s[sel[b] as int].0,
                forall|b: int| 0 <= b < a ==> self.entry(#[trigger] keys[b]@) == s[sel[b] as int],
                sure <==> forall|b: int| 0 <= b < a ==> lower(self.entry(#[trigger] keys[b]@)) > t,
            decreases sel.len() - a,
        {
            let c = &self.counters[sel[a]];
            proof {
                assert(s[sel[a as int] as int].2 <= s[sel[a as int] as int].1);
                self.lemma_entry(sel[a as int] as int);
            }
            if c.count - c.error <= t {
                sure = false;
            }
            let ghost prev_keys = keys@;
            keys.push(c.key.clone());
            proof {
                assert(forall|b: int| 0 <= b < a ==> keys[b] == prev_keys[b]);
                assert(keys[a as int]@ == s[sel[a as int] as int].0);
                assert(self.entry(keys[a as int]@) == s[sel[a as int] as int]);
            }
            a = a + 1;
        }
        let ghost ks = keys@.map_values(|k: String| k@);
        proof {
            assert forall|b: int| 0 <= b < sel.len() implies #[trigger] ks[b] == s[sel[b] as int].0 by {}
            self.lemma_leading(sel@, ks);
            assert forall|x: Seq<char>| #[trigger] ks.contains(x) implies self.entry(x).1 > t && (sure ==> lower(self.entry(x)) > t) by {
                let b = ks.index_of(x);
                assert(self.entry(ks[b]) == s[sel[b] as int]);
            }
            assert forall|y: Seq<char>| self.tracks(y) && !#[trigger] ks.contains(y) implies self.entry(y).1 <= t by {
                let i = self.slot_of(y);
                assert(!sel@.contains(i as usize));
            }
            assert(t == self.threshold(num, den));
            if !sure {
                let b = choose|b: int| 0 <= b < a && !(lower(self.entry(#[trigger] keys[b]@)) > t);
                let x = ks[b];
                assert(x == keys[b]@);
                assert(ks.contains(x));
                assert(!(lower(self.entry(x)) > self.threshold(num, den)));
            }
        }
        if sure {
            proof {
                self.lemma_frequent_guarantee(ks, t as int);
                assert(keys_of(Ok(keys)) == ks);
            }
            Ok(keys)
        } else {
            proof {
                assert(keys_of(Err(keys)) == ks);
            }
            Err(keys)
        }
    }

    /// The error bounds of Space-Saving: a key with a slot has a count no
    /// less than its true count, and a count less its error no more than
    /// it; a key without one has a true count no more than any slot's count,
    /// and zero while a slot is free.
    pub proof fn lemma_error_bounds(&self, key: Seq<char>)
        requires
            self.wf(),
        ensures
            self.tracks(key) ==> lower(self.entry(key)) <= self.true_count(key) <= self.entry(key).1,
            !self.tracks(key) ==> forall|i: int| 0 <= i < self.slots().len() ==> self.true_count(key) <= (#[trigger] self.slots()[i]).1,
            !self.tracks(key) && self.slots().len() < self.spec_capacity() ==> self.true_count(key) == 0,
    {
        if self.tracks(key) {
            let i = self.slot_of(key);
            assert(self.slots()[i].0 == key);
        }
    }

    /// The decayed count and error of `key` at `timestamp`: its count and
    /// error over the normalizing factor, or `None` when it has no slot.
    pub fn get(&self, key: &String, timestamp: u64) -> (r: Option<(Ratio, Ratio)>)
        requires
            self.wf(),
            self.tracks(key@) ==> normalizable(self.spec_decay(), self.entry(key@).1 as int, timestamp, 0, u128::MAX as int),
        ensures
            !self.tracks(key@) ==> r is None,
            self.tracks(key@) ==> (r matches Some((c, e))
                && (c.num(), c.den()) == normalized(self.spec_decay(), self.entry(key@).1 as int, timestamp)
                && (e.num(), e.den()) == normalized(self.spec_decay(), self.entry(key@).2 as int, timestamp)),
    {
        match self.find(key) {
            Some(j) => {
                proof {
                    self.lemma_entry(j as int);
                    let fd = self.spec_decay();
                    let e = self.slots()[j as int];
                    assert(e.2 <= e.1);
                    if timestamp < fd.spec_landmark() && fd.spec_g().spec_base() > 1 {
                        let p = pow(fd.spec_g().spec_base() as int, (fd.spec_landmark() - timestamp) as nat);
                        vstd::arithmetic::power::lemma_pow_positive(fd.spec_g().spec_base() as int, (fd.spec_landmark() - timestamp) as nat);
                        assert(0 <= e.2 * p <= e.1 * p) by (nonlinear_arith)
                            requires
                                e.2 <= e.1,
                                p >= 1,
                        ;
                    }
                }
                let c = &self.counters[j];
                Some((self.decay.normalize_unsigned(c.count, timestamp), self.decay.normalize_unsigned(c.error, timestamp)))
            },
            None => None,
        }
    }

    /// The decayed total weight of all hits at `timestamp`.
    pub fn hits(&self, timestamp: u64) -> (r: Ratio)
        requires
            self.wf(),
            normalizable(self.spec_decay(), self.spec_hits() as int, timestamp, 0, u128::MAX as int),
        ensures
            (r.num(), r.den()) == normalized(self.spec_decay(), self.spec_hits() as int, timestamp),
    {
        self.decay.normalize_unsigned(self.hits, timestamp)
    }

    /// The landmark L.
    pub fn landmark(&self) -> (r: u64)
        ensures
            r == self.spec_landmark(),
    {
        self.landmark
    }

    /// The decay model against the reference time R.
    pub fn decay(&self) -> (r: &ForwardDecay<G>)
        ensures
            *r == self.spec_decay(),
    {
        &self.decay
    }

    /// The number of slots.
    pub fn capacity(&self) -> (r: usize)
        ensures
            r == self.spec_capacity(),
    {
        self.capacity
    }

    /// The total weight of all hits against R.
    pub fn static_hits(&self) -> (r: u128)
        ensures
            r == self.spec_hits(),
    {
        self.hits
    }
}

impl<G: Function> BTreeSpaceSaving<G> {
    /// The reference time that a landmark move to `landmark` settles on: the
    /// landmark or the earliest hit, whichever comes first, but never before
    /// the current reference time.
    pub open spec fn settled_reference(&self, landmark: u64) -> u64 {
        let r = self.spec_decay().spec_landmark();
        let target = earlier(self.spec_earliest(), landmark);
        if target > r { target } else { r }
    }

    /// Dividing every quantity of an aligned counter exactly by `f` keeps
    /// the invariant.
    proof fn lemma_divided(&self, pre: Self, f: int)
        requires
            pre.wf(),
            f >= 1,
            self.spec_decay().wf(),
            self.spec_capacity() == pre.spec_capacity(),
            divides(f, pre.spec_hits() as int),
            forall|i: int| 0 <= i < pre.slots().len() ==> divides(f, (#[trigger] pre.slots()[i]).1 as int) && divides(f, pre.slots()[i].2 as int),
            forall|k: Seq<char>| divides(f, #[trigger] pre.true_count(k) as int),
            self.spec_hits() == pre.spec_hits() as int / f,
            self.slots() == pre.slots().map_values(|e: (Seq<char>, u128, u128)| (e.0, (e.1 as int / f) as u128, (e.2 as int / f) as u128)),
            forall|k: Seq<char>| #[trigger] self.true_count(k) == pre.true_count(k) as int / f,
        ensures
            self.wf(),
    {
        reveal(BTreeSpaceSaving::errors_bounded);
        let s = self.slots();
        let s0 = pre.slots();
        let h = pre.spec_hits() as int;
        let kk = pre.spec_capacity() as int;
        lemma_divides_quotient(f, h, 0);
        assert forall|i: int| 0 <= i < s.len() implies (#[trigger] s[i]).0 == s0[i].0 && s[i].1 == s0[i].1 as int / f && s[i].2 == s0[i].2 as int / f by {
            assert(s0[i].1 as int / f <= s0[i].1) by {
                vstd::arithmetic::div_mod::lemma_div_is_ordered_by_denominator(s0[i].1 as int, 1, f);
            }
            assert(s0[i].2 as int / f <= s0[i].2) by {
                vstd::arithmetic::div_mod::lemma_div_is_ordered_by_denominator(s0[i].2 as int, 1, f);
            }
        }
        assert forall|k: Seq<char>| self.tracks(k) <==> pre.tracks(k) by {
            if self.tracks(k) {
                let i = self.slot_of(k);
                assert(s0[i].0 == k);
            }
            if pre.tracks(k) {
                let i = pre.slot_of(k);
                assert(s[i].0 == k);
            }
        }
        assert forall|i: int, j: int| 0 <= i < j < s.len() implies #[trigger] s[i].0 != #[trigger] s[j].0 by {
            assert(s0[i].0 != s0[j].0);
        }
        assert forall|i: int| 0 <= i < s.len() implies {
            &&& (#[trigger] s[i]).2 <= s[i].1 <= self.spec_hits()
            &&& lower(s[i]) <= self.true_count(s[i].0) <= s[i].1
        } by {
            let e = s0[i];
            let (c, r) = (e.1 as int, e.2 as int);
            let t = pre.true_count(e.0) as int;
            assert(r <= c <= h);
            assert(c - r <= t <= c);
            vstd::arithmetic::div_mod::lemma_div_is_ordered(r, c, f);
            vstd::arithmetic::div_mod::lemma_div_is_ordered(c, h, f);
            vstd::arithmetic::div_mod::lemma_div_is_ordered(t, c, f);
            vstd::arithmetic::div_mod::lemma_div_is_ordered(c - r, t, f);
            lemma_divides_quotient(f, c, 0);
            lemma_divides_quotient(f, r, 0);
            assert(c - r == (c / f - r / f) * f) by (nonlinear_arith)
                requires
                    c == f * (c / f),
                    r == f * (r / f),
            ;
            lemma_divides_quotient(f, c - r, c / f - r / f);
        }
        assert forall|k: Seq<char>, i: int| !self.tracks(k) && 0 <= i < s.len() implies #[trigger] self.true_count(k) <= (#[trigger] s[i]).1 by {
            assert(pre.true_count(k) <= s0[i].1);
            vstd::arithmetic::div_mod::lemma_div_is_ordered(pre.true_count(k) as int, s0[i].1 as int, f);
        }
        if s.len() < self.spec_capacity() {
            assert forall|k: Seq<char>| !self.tracks(k) implies #[trigger] self.true_count(k) == 0 by {
                assert(pre.true_count(k) == 0);
            }
        }
        assert forall|i: int| 0 <= i < s.len() implies (#[trigger] s[i]).2 * self.spec_capacity() <= self.spec_hits() by {
            let r = s0[i].2 as int;
            assert(r * kk <= h);
            lemma_divides_quotient(f, r, 0);
            assert(r * kk == ((r / f) * kk) * f) by (nonlinear_arith)
                requires
                    r == f * (r / f),
            ;
            lemma_divides_quotient(f, r * kk, (r / f) * kk);
            vstd::arithmetic::div_mod::lemma_div_is_ordered(r * kk, h, f);
        }
        lemma_total_divided(s0, f);
        assert(total(s0) == h);
    }
}

impl BTreeSpaceSaving<Exponential> {
    /// Moves the landmark to `landmark`, earlier or later, and rescales. The
    /// reference time moves forward to the new landmark or the earliest hit,
    /// whichever comes first (never back), and the total, every count and
    /// error and every true count are divided exactly by the rescale factor
    /// `g(R' - R)`; this keeps them small over long streams, while every
    /// decayed result stays the same (see `lemma_rescale_keeps_decayed_values`).
    pub fn update_landmark(&mut self, landmark: u64)
        requires
            old(self).wf(),
            old(self).aligned(),
        ensures
            final(self).wf(),
            final(self).aligned(),
            final(self).spec_landmark() == landmark,
            final(self).spec_capacity() == old(self).spec_capacity(),
            final(self).spec_earliest() == old(self).spec_earliest(),
            final(self).spec_decay() == old(self).spec_decay().with_landmark(old(self).settled_reference(landmark)),
            ({
                let f = pow(old(self).spec_decay().spec_g().spec_base() as int,
                    (old(self).settled_reference(landmark) - old(self).spec_decay().spec_landmark()) as nat);
                &&& old(self).spec_hits() == f * final(self).spec_hits()
                &&& final(self).slots() == old(self).slots().map_values(|e: (Seq<char>, u128, u128)| (e.0, (e.1 as int / f) as u128, (e.2 as int / f) as u128))
                &&& forall|i: int| 0 <= i < old(self).slots().len() ==> (#[trigger] old(self).slots()[i]).1 == f * final(self).slots()[i].1
                    && old(self).slots()[i].2 == f * final(self).slots()[i].2
                &&& forall|k: Seq<char>| #[trigger] old(self).true_count(k) == f * final(self).true_count(k)
            }),
    {
        let ghost pre = *self;
        let ghost s0 = self.slots();
        self.landmark = landmark;
        let r: u64 = self.decay.landmark();
        let target: u64 = match self.earliest {
            Some(e) => if landmark < e { landmark } else { e },
            None => landmark,
        };
        let ghost rr: u64 = pre.settled_reference(landmark);
        let ghost b = pre.spec_decay().spec_g().spec_base() as int;
        let ghost f = pow(b, (rr - r) as nat);
        proof {
            lemma_with_landmark(self.decay, rr);
            vstd::arithmetic::power::lemma_pow_positive(b, (rr - r) as nat);
            // every quantity is a multiple of f, with a quotient that is a
            // multiple of b^(E - R')
            match pre.spec_earliest() {
                Some(e) => {
                    let d2 = pow(b, (e - rr) as nat);
                    vstd::arithmetic::power::lemma_pow_positive(b, (e - rr) as nat);
                    vstd::arithmetic::power::lemma_pow_adds(b, (e - rr) as nat, (rr - r) as nat);
                    assert(pow(b, (e - r) as nat) == d2 * f);
                    lemma_divides_shrink(d2, f, pre.spec_hits() as int);
                    assert forall|i: int| 0 <= i < s0.len() implies divides(f, (#[trigger] s0[i]).1 as int) && divides(f, s0[i].2 as int)
                        && divides(d2, s0[i].1 as int / f) && divides(d2, s0[i].2 as int / f) by {
                        lemma_divides_shrink(d2, f, s0[i].1 as int);
                        lemma_divides_shrink(d2, f, s0[i].2 as int);
                    }
                    assert forall|k: Seq<char>| divides(f, #[trigger] pre.true_count(k) as int) && divides(d2, pre.true_count(k) as int / f) by {
                        lemma_divides_shrink(d2, f, pre.true_count(k) as int);
                    }
                },
                None => {
                    lemma_divides_quotient(f, 0, 0);
                    assert(forall|k: Seq<char>| #[trigger] pre.true_count(k) == 0);
                },
            }
            lemma_divides_quotient(f, pre.spec_hits() as int, 0);
            assert forall|k: Seq<char>| #[trigger] pre.true_count(k) == f * (pre.true_count(k) as int / f) by {
                lemma_divides_quotient(f, pre.true_count(k) as int, 0);
            }
        }
        if target > r {
            let b: u64 = Function::base(self.decay.g());
            let e: u128 = (target - r) as u128;
            self.truth = Ghost(Map::new(|k: Seq<char>| pre.truth@.dom().contains(k), |k: Seq<char>| (pre.truth@[k] as int / f) as nat));
            self.decay.set_landmark(target);
            match crate::g::checked_pow(b as u128, e) {
                Some(fv) => {
                    self.hits = self.hits / fv;
                    let ghost mid = *self;
                    let n = self.counters.len();
                    let mut i: usize = 0;
                    while i < n
                        invariant
                            self.decay == mid.decay,
                            self.hits == mid.hits,
                            self.capacity == mid.capacity,
                            self.truth == mid.truth,
                            self.landmark == mid.landmark,
                            self.earliest == pre.earliest,
                            fv == f,
                            f >= 1,
                            s0 == pre.slots(),
                            n == s0.len(),
                            self.counters.len() == n,
                            i <= n,
                            forall|j: int| 0 <= j < i ==> #[trigger] self.slots()[j] == (s0[j].0, (s0[j].1 as int / f) as u128, (s0[j].2 as int / f) as u128),
                            forall|j: int| i <= j < n ==> #[trigger] self.slots()[j] == s0[j],
                        decreases n - i,
                    {
                        let ghost before = self.slots();
                        proof {
                            assert(self.slots()[i as int] == s0[i as int]);
                        }
                        let c = self.counters[i].count / fv;
                        let r2 = self.counters[i].error / fv;
                        self.counters[i].count = c;
                        self.counters[i].error = r2;
                        proof {
                            assert(self.slots() =~= before.update(i as int, (s0[i as int].0, c, r2)));
                        }
                        i = i + 1;
                    }
                },
                None => {
                    proof {
                        assert(self.counters == pre.counters);
                        let h = pre.spec_hits() as int;
                        assert(h == 0 && h / f == 0) by (nonlinear_arith)
                            requires
                                h == f * (h / f),
                                0 <= h <= u128::MAX,
                                f > u128::MAX,
                        ;
                        assert forall|i: int| 0 <= i < s0.len() implies (#[trigger] s0[i]).1 == 0 && s0[i].2 == 0 by {
                            let (c, r2) = (s0[i].1 as int, s0[i].2 as int);
                            lemma_divides_quotient(f, c, 0);
                            lemma_divides_quotient(f, r2, 0);
                            assert(c == 0 && r2 == 0) by (nonlinear_arith)
                                requires
                                    c == f * (c / f),
                                    r2 == f * (r2 / f),
                                    0 <= c <= u128::MAX,
                                    0 <= r2 <= u128::MAX,
                                    f > u128::MAX,
                            ;
                        }
                    }
                },
            }
        } else {
            proof {
                assert(rr == r);
                vstd::arithmetic::power::lemma_pow0(b);
                assert(f == 1);
            }
            self.truth = Ghost(Map::new(|k: Seq<char>| pre.truth@.dom().contains(k), |k: Seq<char>| (pre.truth@[k] as int / f) as nat));
        }
        proof {
            if target <= r {
                assert(self.counters == pre.counters);
                lemma_divides_quotient(1, pre.spec_hits() as int, pre.spec_hits() as int);
                assert(self.spec_hits() == pre.spec_hits() as int / f);
                assert forall|j: int| 0 <= j < s0.len() implies (#[trigger] s0[j]).1 as int / f == s0[j].1 && s0[j].2 as int / f == s0[j].2 by {
                    lemma_divides_quotient(1, s0[j].1 as int, s0[j].1 as int);
                    lemma_divides_quotient(1, s0[j].2 as int, s0[j].2 as int);
                }
            }
            assert forall|j: int| 0 <= j < s0.len() implies (#[trigger] s0[j]).1 == f * (s0[j].1 as int / f) && s0[j].2 == f * (s0[j].2 as int / f) by {
                lemma_divides_quotient(f, s0[j].1 as int, 0);
                lemma_divides_quotient(f, s0[j].2 as int, 0);
            }
            assert(self.slots() =~= s0.map_values(|e: (Seq<char>, u128, u128)| (e.0, (e.1 as int / f) as u128, (e.2 as int / f) as u128)));
            assert forall|k: Seq<char>| #[trigger] self.true_count(k) == pre.true_count(k) as int / f by {}
            self.lemma_divided(pre, f);
        }
    }
}

/// Rescaling is exact: where g is `b^a`, a counter whose reference time
/// moved forward from R to R' with every quantity divided exactly by
/// `b^(R' - R)`, as `update_landmark` does, gives at every time the same
/// decayed hit total and the same decayed count and error for every slot.
pub proof fn lemma_rescale_keeps_decayed_values<G: Function>(pre: BTreeSpaceSaving<G>, post: BTreeSpaceSaving<G>, rr: u64, t: u64)
    requires
        pre.spec_decay().wf(),
        pre.spec_decay().spec_g().spec_base() > 1,
        rr >= pre.spec_decay().spec_landmark(),
        post.spec_decay() == pre.spec_decay().with_landmark(rr),
        post.slots().len() == pre.slots().len(),
        ({
            let f = pow(pre.spec_decay().spec_g().spec_base() as int, (rr - pre.spec_decay().spec_landmark()) as nat);
            &&& pre.spec_hits() == f * post.spec_hits()
            &&& forall|i: int| 0 <= i < pre.slots().len() ==> (#[trigger] pre.slots()[i]).1 == f * post.slots()[i].1
                && pre.slots()[i].2 == f * post.slots()[i].2
        }),
    ensures
        ratio_eq(normalized(pre.spec_decay(), pre.spec_hits() as int, t), normalized(post.spec_decay(), post.spec_hits() as int, t)),
        forall|i: int| 0 <= i < pre.slots().len() ==> {
            &&& ratio_eq(normalized(pre.spec_decay(), (#[trigger] pre.slots()[i]).1 as int, t), normalized(post.spec_decay(), post.slots()[i].1 as int, t))
            &&& ratio_eq(normalized(pre.spec_decay(), pre.slots()[i].2 as int, t), normalized(post.spec_decay(), post.slots()[i].2 as int, t))
        },
{
    let lo = pre.spec_decay();
    let hi = post.spec_decay();
    lemma_with_landmark(lo, rr);
    lemma_normalized_shift(lo, hi, post.spec_hits() as int, t);
    assert forall|i: int| 0 <= i < pre.slots().len() implies {
        &&& ratio_eq(normalized(lo, (#[trigger] pre.slots()[i]).1 as int, t), normalized(hi, post.slots()[i].1 as int, t))
        &&& ratio_eq(normalized(lo, pre.slots()[i].2 as int, t), normalized(hi, post.slots()[i].2 as int, t))
    } by {
        lemma_normalized_shift(lo, hi, post.slots()[i].1 as int, t);
        lemma_normalized_shift(lo, hi, post.slots()[i].2 as int, t);
    }
}

/// A quantity of an aligned counter is a multiple of `b^(e2 - R)` for any
/// `e2` between R and the earliest hit.
proof fn lemma_weaken<G: Function>(pre: BTreeSpaceSaving<G>, e2: u64, x: int)
    requires
        pre.aligned(),
        pre.spec_decay().spec_g().spec_base() > 1,
        e2 >= pre.spec_decay().spec_landmark(),
        pre.spec_earliest() matches Some(e) ==> e2 <= e && divides(
            pow(pre.spec_decay().spec_g().spec_base() as int, (e - pre.spec_decay().spec_landmark()) as nat),
            x,
        ),
        pre.spec_earliest() is None ==> x == 0,
    ensures
        divides(pow(pre.spec_decay().spec_g().spec_base() as int, (e2 - pre.spec_decay().spec_landmark()) as nat), x),
{
    let b = pre.spec_decay().spec_g().spec_base() as int;
    let r0 = pre.spec_decay().spec_landmark();
    match pre.spec_earliest() {
        Some(e) => {
            lemma_divides_pow(b, (e2 - r0) as nat, (e - r0) as nat, x);
        },
        None => {
            vstd::arithmetic::power::lemma_pow_positive(b, (e2 - r0) as nat);
            lemma_divides_quotient(pow(b, (e2 - r0) as nat), 0, 0);
        },
    }
}

/// A hit keeps every quantity a whole multiple of `b^(E - R)`.
proof fn lemma_hit_aligned<G: Function>(
    pre: BTreeSpaceSaving<G>,
    mid: BTreeSpaceSaving<G>,
    next: BTreeSpaceSaving<G>,
    key: Seq<char>,
    now: u64,
    r: Count,
)
    requires
        pre.wf(),
        pre.aligned(),
        pre.can_hit(now),
        pre.rebased_to(now, mid),
        mid.hit_post(key, now, next, r),
        next.spec_earliest() == Some(earlier(pre.spec_earliest(), now)),
    ensures
        next.aligned(),
{
    let fd = pre.spec_decay();
    let b = fd.spec_g().spec_base() as int;
    if b <= 1 {
        return;
    }
    let r0 = fd.spec_landmark();
    let rr = mid.spec_decay().spec_landmark();
    let e2 = earlier(pre.spec_earliest(), now);
    let s = mid.slots();
    let s2 = next.slots();
    lemma_with_landmark(fd, now);
    assert(next.spec_decay() == mid.spec_decay());
    if now < r0 {
        assert(rr == now);
        assert(e2 == now);
        assert(pow(b, 0) == 1) by {
            vstd::arithmetic::power::lemma_pow0(b);
        }
        assert(divides(1, next.spec_hits() as int)) by {
            lemma_divides_quotient(1, next.spec_hits() as int, next.spec_hits() as int);
        }
        assert forall|i: int| 0 <= i < s2.len() implies divides(1, (#[trigger] s2[i]).1 as int) && divides(1, s2[i].2 as int) by {
            lemma_divides_quotient(1, s2[i].1 as int, s2[i].1 as int);
            lemma_divides_quotient(1, s2[i].2 as int, s2[i].2 as int);
        }
        assert forall|k: Seq<char>| divides(1, #[trigger] next.true_count(k) as int) by {
            lemma_divides_quotient(1, next.true_count(k) as int, next.true_count(k) as int);
        }
        return;
    }
    assert(rr == r0);
    let d = pow(b, (e2 - r0) as nat);
    vstd::arithmetic::power::lemma_pow_positive(b, (e2 - r0) as nat);
    let w = mid.spec_decay().g_at(now) as int;
    fd.spec_g().lemma_base((now - r0) as i128);
    assert(w == pow(b, (now - r0) as nat));
    vstd::arithmetic::power::lemma_pow_positive(b, (now - r0) as nat);
    lemma_divides_quotient(w, w, 1);
    lemma_divides_pow(b, (e2 - r0) as nat, (now - r0) as nat, w);
    lemma_divides_quotient(d, 0, 0);
    assert(mid.spec_hits() == pre.spec_hits());
    lemma_weaken(pre, e2, pre.spec_hits() as int);
    lemma_divides_add(d, pre.spec_hits() as int, w);
    assert forall|k: Seq<char>| divides(d, #[trigger] next.true_count(k) as int) by {
        assert(mid.true_count(k) == pre.true_count(k));
        lemma_weaken(pre, e2, pre.true_count(k) as int);
        if k == key {
            lemma_divides_add(d, pre.true_count(k) as int, w);
        } else {
            lemma_divides_add(d, pre.true_count(k) as int, 0);
        }
    }
    assert forall|i: int| 0 <= i < s.len() implies divides(d, (#[trigger] s[i]).1 as int) && divides(d, s[i].2 as int) by {
        let s0 = pre.slots();
        assert(s[i] == s0[i]);
        assert(s0[i] == s0[i]);
        lemma_weaken(pre, e2, s0[i].1 as int);
        lemma_weaken(pre, e2, s0[i].2 as int);
    }
    let j = choose|j: int|
        {
            &&& (!mid.tracks(key) && mid.slots().len() == mid.spec_capacity() ==> mid.is_min_slot(j))
            &&& next.slots() == #[trigger] mid.slots_after_hit(key, w as nat, j)
        };
    assert forall|i: int| 0 <= i < s2.len() implies divides(d, (#[trigger] s2[i]).1 as int) && divides(d, s2[i].2 as int) by {
        if mid.tracks(key) {
            let t = mid.slot_of(key);
            if i == t {
                assert(s[t].1 <= mid.spec_hits());
                lemma_divides_add(d, s[t].1 as int, w);
            } else {
                assert(s2[i] == s[i]);
            }
        } else if s.len() < mid.spec_capacity() {
            if i == s.len() {
                assert(s2[i] == (key, w as u128, 0u128));
            } else {
                assert(s2[i] == s[i]);
            }
        } else {
            if i == j {
                assert(s[j].1 <= mid.spec_hits());
                lemma_divides_add(d, s[j].1 as int, w);
            } else {
                assert(s2[i] == s[i]);
            }
        }
    }
}

} // verus!
