//! Positive, monotone non-decreasing functions of age, used to weight items.
use vstd::prelude::*;
use vstd::arithmetic::power::{pow, lemma_pow_positive, lemma_pow_increases};

verus! {

/// A monotone non-decreasing, non-negative function g of the age of an item,
/// positive on positive ages. The weight of an item of age `a` at a query of
/// age `t` is `g(a) / g(t)`.
pub trait Function {
    /// The value of g at `age`.
    spec fn spec_invoke(&self, age: i128) -> nat;

    /// The parameters describe a function with the properties above.
    spec fn valid(&self) -> bool;

    proof fn lemma_monotone(&self, a: i128, b: i128)
        requires
            self.valid(),
            a <= b,
        ensures
            self.spec_invoke(a) <= self.spec_invoke(b),
    ;

    proof fn lemma_positive(&self, a: i128)
        requires
            self.valid(),
            a > 0,
        ensures
            self.spec_invoke(a) > 0,
    ;

    /// A whole number b > 1 where g is `b^a` at every age `a >= 0`; 1 where
    /// g is not of that form.
    spec fn spec_base(&self) -> nat;

    proof fn lemma_base(&self, a: i128)
        requires
            self.valid(),
            self.spec_base() > 1,
            a >= 0,
        ensures
            self.spec_invoke(a) == pow(self.spec_base() as int, a as nat),
    ;

    /// The base b of the law above, or 1.
    fn base(&self) -> (r: u64)
        requires
            self.valid(),
        ensures
            r == self.spec_base(),
            r >= 1,
    ;

    /// Whether g(age) can be represented as a `u64` weight.
    fn fits(&self, age: i128) -> (r: bool)
        requires
            self.valid(),
        ensures
            r == (self.spec_invoke(age) <= u64::MAX),
    ;

    fn invoke(&self, age: i128) -> (r: u64)
        requires
            self.valid(),
            self.spec_invoke(age) <= u64::MAX,
        ensures
            r == self.spec_invoke(age),
    ;
}

/// `base` to the power `exp`, or `None` when that exceeds `u128::MAX`.
pub(crate) fn checked_pow(base: u128, exp: u128) -> (r: Option<u128>)
    ensures
        r matches Some(v) ==> v == pow(base as int, exp as nat),
        r is None <==> pow(base as int, exp as nat) > u128::MAX,
{
    if exp == 0 {
        proof {
            reveal(pow);
        }
        return Some(1);
    }
    if base <= 1 {
        proof {
            lemma_small_base_pow(base as nat, exp as nat);
        }
        return Some(base);
    }
    let mut acc: u128 = base;
    let mut i: u128 = 1;
    proof {
        reveal(pow);
        assert(pow(base as int, 0) == 1);
        assert(pow(base as int, 1) == base * pow(base as int, 0));
    }
    while i < exp
        invariant
            2 <= base,
            1 <= i <= exp,
            acc == pow(base as int, i as nat),
        decreases exp - i,
    {
        proof {
            reveal(pow);
            assert(pow(base as int, (i + 1) as nat) == base * pow(base as int, i as nat));
            let p = pow(base as int, i as nat);
            assert(base * p == p * base) by (nonlinear_arith);
        }
        match acc.checked_mul(base) {
            Some(next) => {
                acc = next;
                i = i + 1;
            },
            None => {
                proof {
                    lemma_pow_increases(base as nat, (i + 1) as nat, exp as nat);
                }
                return None;
            },
        }
    }
    Some(acc)
}

proof fn lemma_small_base_pow(base: nat, exp: nat)
    requires
        base <= 1,
        exp >= 1,
    ensures
        pow(base as int, exp) == base,
    decreases exp,
{
    reveal(pow);
    if exp > 1 {
        lemma_small_base_pow(base, (exp - 1) as nat);
        assert(base * base == base) by (nonlinear_arith)
            requires
                base <= 1,
        ;
    } else {
        assert(pow(base as int, 0) == 1);
    }
}

/// Raising to a fixed power keeps the order of non-negative bases.
proof fn lemma_pow_base_monotone(a: nat, b: nat, e: nat)
    requires
        a <= b,
    ensures
        0 <= pow(a as int, e) <= pow(b as int, e),
    decreases e,
{
    reveal(pow);
    if e > 0 {
        lemma_pow_base_monotone(a, b, (e - 1) as nat);
        let pa = pow(a as int, (e - 1) as nat);
        let pb = pow(b as int, (e - 1) as nat);
        assert(0 <= a * pa <= b * pb) by (nonlinear_arith)
            requires
                a <= b,
                0 <= pa <= pb,
        ;
    }
}

/// A power of at least one is at least its base.
proof fn lemma_pow_at_least_base(a: nat, e: nat)
    requires
        a >= 1,
        e >= 1,
    ensures
        pow(a as int, e) >= a,
{
    lemma_pow_increases(a, 1, e);
    reveal(pow);
    assert(pow(a as int, 0) == 1);
}

/// No decay: g(n) = 1 for every age.
impl Function for () {
    open spec fn spec_base(&self) -> nat {
        1
    }

    proof fn lemma_base(&self, a: i128) {
    }

    fn base(&self) -> (r: u64) {
        1
    }

    open spec fn spec_invoke(&self, age: i128) -> nat {
        1
    }

    open spec fn valid(&self) -> bool {
        true
    }

    proof fn lemma_monotone(&self, a: i128, b: i128) {
    }

    proof fn lemma_positive(&self, a: i128) {
    }

    fn fits(&self, age: i128) -> (r: bool) {
        true
    }

    fn invoke(&self, age: i128) -> (r: u64) {
        1
    }
}

/// Polynomial decay: g(n) = n^β for positive ages, 0 otherwise, with β > 0.
#[derive(Copy, Clone, Debug, PartialEq, Eq, Structural)]
pub struct Polynomial(i32);

impl Polynomial {
    /// The degree β.
    pub closed spec fn degree(&self) -> int {
        self.0 as int
    }

    /// A polynomial decay of degree `beta`, which must be positive.
    pub fn new(beta: i32) -> (r: Self)
        requires
            beta > 0,
        ensures
            r.degree() == beta,
            r.valid(),
    {
        Polynomial(beta)
    }
}

impl Function for Polynomial {
    open spec fn spec_base(&self) -> nat {
        1
    }

    proof fn lemma_base(&self, a: i128) {
    }

    fn base(&self) -> (r: u64) {
        1
    }

    open spec fn spec_invoke(&self, age: i128) -> nat {
        if age > 0 {
            pow(age as int, self.degree() as nat) as nat
        } else {
            0
        }
    }

    open spec fn valid(&self) -> bool {
        self.degree() > 0
    }

    proof fn lemma_monotone(&self, a: i128, b: i128) {
        if a > 0 {
            lemma_pow_base_monotone(a as nat, b as nat, self.degree() as nat);
        } else if b > 0 {
            lemma_pow_positive(b as int, self.degree() as nat);
        }
    }

    proof fn lemma_positive(&self, a: i128) {
        lemma_pow_positive(a as int, self.degree() as nat);
    }

    fn fits(&self, age: i128) -> (r: bool) {
        if age <= 0 {
            return true;
        }
        proof {
            lemma_pow_positive(age as int, self.degree() as nat);
            lemma_pow_at_least_base(age as nat, self.degree() as nat);
        }
        if age > u64::MAX as i128 {
            return false;
        }
        match checked_pow(age as u128, self.0 as u128) {
            Some(v) => v <= u64::MAX as u128,
            None => false,
        }
    }

    fn invoke(&self, age: i128) -> (r: u64) {
        if age <= 0 {
            return 0;
        }
        proof {
            lemma_pow_positive(age as int, self.degree() as nat);
            lemma_pow_at_least_base(age as nat, self.degree() as nat);
        }
        match checked_pow(age as u128, self.0 as u128) {
            Some(v) => v as u64,
            None => 0,
        }
    }
}

/// Exponential decay: g(n) = base^n for non-negative ages, with base > 1
/// (an exponential rate of ln(base) per tick). Before the landmark g is 0,
/// as the weight of such an item is; the aggregates keep their totals
/// against a reference time no later than any item, so that the static
/// weight `base^n` of an item before the landmark is still counted exactly.
#[derive(Copy, Clone, Debug, PartialEq, Eq, Structural)]
pub struct Exponential(u64);

impl Exponential {
    /// The growth factor per tick.
    pub closed spec fn base(&self) -> int {
        self.0 as int
    }

    /// An exponential decay with growth factor `base` per tick, which must
    /// exceed one.
    pub fn new(base: u64) -> (r: Self)
        requires
            base > 1,
        ensures
            r.base() == base,
            r.valid(),
    {
        Exponential(base)
    }

    /// g(elapsed), the factor by which totals shrink when the landmark moves
    /// forward by `elapsed` ticks, or `None` when it exceeds `u128::MAX`.
    pub fn rescale_factor(&self, elapsed: u64) -> (r: Option<u128>)
        ensures
            r matches Some(v) ==> v == pow(self.base(), elapsed as nat),
            r is None <==> pow(self.base(), elapsed as nat) > u128::MAX,
    {
        checked_pow(self.0 as u128, elapsed as u128)
    }
}

impl Function for Exponential {
    open spec fn spec_base(&self) -> nat {
        self.base() as nat
    }

    proof fn lemma_base(&self, a: i128) {
        lemma_pow_positive(self.base(), a as nat);
    }

    fn base(&self) -> (r: u64) {
        self.0
    }

    open spec fn spec_invoke(&self, age: i128) -> nat {
        if age >= 0 {
            pow(self.base(), age as nat) as nat
        } else {
            0
        }
    }

    open spec fn valid(&self) -> bool {
        self.base() > 1
    }

    proof fn lemma_monotone(&self, a: i128, b: i128) {
        if a >= 0 {
            lemma_pow_increases(self.base() as nat, a as nat, b as nat);
            lemma_pow_positive(self.base(), a as nat);
        } else if b >= 0 {
            lemma_pow_positive(self.base(), b as nat);
        }
    }

    proof fn lemma_positive(&self, a: i128) {
        lemma_pow_positive(self.base(), a as nat);
    }

    fn fits(&self, age: i128) -> (r: bool) {
        if age < 0 {
            return true;
        }
        proof {
            lemma_pow_positive(self.base(), age as nat);
        }
        match checked_pow(self.0 as u128, age as u128) {
            Some(v) => v <= u64::MAX as u128,
            None => false,
        }
    }

    fn invoke(&self, age: i128) -> (r: u64) {
        if age < 0 {
            return 0;
        }
        proof {
            lemma_pow_positive(self.base(), age as nat);
        }
        match checked_pow(self.0 as u128, age as u128) {
            Some(v) => v as u64,
            None => 0,
        }
    }
}

/// Landmark window: g(n) = 1 for n > 0, and 0 otherwise.
#[derive(Copy, Clone, Debug, PartialEq, Eq, Structural)]
pub struct LandmarkWindow;

impl Function for LandmarkWindow {
    open spec fn spec_base(&self) -> nat {
        1
    }

    proof fn lemma_base(&self, a: i128) {
    }

    fn base(&self) -> (r: u64) {
        1
    }

    open spec fn spec_invoke(&self, age: i128) -> nat {
        if age > 0 {
            1
        } else {
            0
        }
    }

    open spec fn valid(&self) -> bool {
        true
    }

    proof fn lemma_monotone(&self, a: i128, b: i128) {
    }

    proof fn lemma_positive(&self, a: i128) {
    }

    fn fits(&self, age: i128) -> (r: bool) {
        true
    }

    fn invoke(&self, age: i128) -> (r: u64) {
        if age > 0 {
            1
        } else {
            0
        }
    }
}

/// A caller-supplied function of age. The function must be total,
/// deterministic, monotone non-decreasing and positive on positive ages.
pub struct Custom<F>(F);

impl<F: Fn(i128) -> u64> Custom<F> {
    /// The function that this wraps.
    pub closed spec fn function(&self) -> F {
        self.0
    }

    /// Whether `f` has the properties that a decay needs.
    pub open spec fn admissible(f: F) -> bool {
        &&& forall|a: i128| #[trigger] f.requires((a,)) && exists|r: u64| f.ensures((a,), r)
        &&& forall|a: i128, r1: u64, r2: u64|
            #[trigger] f.ensures((a,), r1) && #[trigger] f.ensures((a,), r2) ==> r1 == r2
        &&& forall|a: i128, b: i128, r1: u64, r2: u64|
            a <= b && #[trigger] f.ensures((a,), r1) && #[trigger] f.ensures((b,), r2) ==> r1
                <= r2
        &&& forall|a: i128, r: u64| a > 0 && #[trigger] f.ensures((a,), r) ==> r > 0
    }

    pub fn new(f: F) -> (r: Self)
        requires
            Self::admissible(f),
        ensures
            r.function() == f,
            r.valid(),
    {
        Custom(f)
    }
}

impl<F: Fn(i128) -> u64> Function for Custom<F> {
    open spec fn spec_base(&self) -> nat {
        1
    }

    proof fn lemma_base(&self, a: i128) {
    }

    fn base(&self) -> (r: u64) {
        1
    }

    open spec fn spec_invoke(&self, age: i128) -> nat {
        (choose|r: u64| self.function().ensures((age,), r)) as nat
    }

    open spec fn valid(&self) -> bool {
        Self::admissible(self.function())
    }

    proof fn lemma_monotone(&self, a: i128, b: i128) {
        let f = self.function();
        assert(f.requires((a,)) && f.requires((b,)));
        let ra = choose|r: u64| f.ensures((a,), r);
        let rb = choose|r: u64| f.ensures((b,), r);
        assert(f.ensures((a,), ra));
        assert(f.ensures((b,), rb));
    }

    proof fn lemma_positive(&self, a: i128) {
        let f = self.function();
        assert(f.requires((a,)));
        let ra = choose|r: u64| f.ensures((a,), r);
        assert(f.ensures((a,), ra));
    }

    fn fits(&self, age: i128) -> (r: bool) {
        true
    }

    fn invoke(&self, age: i128) -> (r: u64) {
        proof {
            assert(self.function().requires((age,)));
        }
        let r = (self.0)(age);
        proof {
            let c = choose|v: u64| self.function().ensures((age,), v);
            assert(self.function().ensures((age,), c));
        }
        r
    }
}

} // verus!


