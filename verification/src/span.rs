//! The span factor and the cover distances that follow from it.

use crate::limbs::{at_most, scaled_power};
use vstd::arithmetic::power::{lemma_pow_adds, lemma_pow_positive, pow};
use vstd::arithmetic::power2::{lemma2_to64, lemma_pow2};
use vstd::prelude::*;

verus! {

/// The base of the cover distance: a fraction greater than one.
///
/// A node of level `l` covers the distances up to the `l`-th power of this fraction.
#[derive(Clone, Copy, Debug, PartialEq, Eq, Structural)]
pub struct SpanFactor {
    numerator: u16,
    denominator: u16,
}

/// The numerator of the span factor of a tree that was given none.
pub const DEFAULT_SPAN_NUMERATOR: u16 = 13;

/// The denominator of the span factor of a tree that was given none.
pub const DEFAULT_SPAN_DENOMINATOR: u16 = 10;

impl SpanFactor {
    /// The number above the fraction bar.
    pub closed spec fn num(self) -> int {
        self.numerator as int
    }

    /// The number below the fraction bar.
    pub closed spec fn den(self) -> int {
        self.denominator as int
    }

    /// The fraction is greater than one and both its parts fit in 16 bits.
    #[verifier::type_invariant]
    pub open spec fn wf(self) -> bool {
        0 < self.den() < self.num() <= u16::MAX
    }

    /// Whether `dist` is at most the cover distance of `level`, the `level`-th power of the
    /// fraction.
    pub open spec fn reaches(self, level: nat, dist: nat) -> bool {
        dist * pow(self.den(), level) <= pow(self.num(), level)
    }

    /// Whether `dist` is at most twice the cover distance of `level`.
    pub open spec fn reaches_twice(self, level: nat, dist: nat) -> bool {
        dist * pow(self.den(), level) <= 2 * pow(self.num(), level)
    }

    /// The level from which on every 64-bit distance is covered.
    pub open spec fn level_cap(self) -> nat {
        (64 * self.den()) as nat
    }

    /// The fraction `numerator / denominator`, if it is greater than one.
    pub fn new(numerator: u16, denominator: u16) -> (r: Option<SpanFactor>)
        ensures
            r is Some <==> 0 < denominator < numerator,
            r matches Some(sf) ==> sf.num() == numerator && sf.den() == denominator,
    {
        if 0 < denominator && denominator < numerator {
            Some(SpanFactor { numerator, denominator })
        } else {
            None
        }
    }

    /// Whether this is the span factor of a tree that was given none: thirteen tenths.
    pub open spec fn is_standard(self) -> bool {
        self.num() == DEFAULT_SPAN_NUMERATOR && self.den() == DEFAULT_SPAN_DENOMINATOR
    }

    /// Thirteen tenths, the span factor of a tree that was given none.
    pub fn standard() -> (sf: SpanFactor)
        ensures
            sf.is_standard(),
    {
        SpanFactor { numerator: DEFAULT_SPAN_NUMERATOR, denominator: DEFAULT_SPAN_DENOMINATOR }
    }

    /// The number above the fraction bar.
    pub fn numerator(&self) -> (n: u16)
        ensures
            n == self.num(),
    {
        self.numerator
    }

    /// The number below the fraction bar.
    pub fn denominator(&self) -> (d: u16)
        ensures
            d == self.den(),
    {
        self.denominator
    }

    /// Whether `dist` is at most the cover distance of `level`.
    pub fn covers(&self, level: usize, dist: u64) -> (r: bool)
        ensures
            r == self.reaches(level as nat, dist as nat),
    {
        let lhs = scaled_power(self.denominator as u32, level, dist);
        let rhs = scaled_power(self.numerator as u32, level, 1);
        at_most(&lhs, &rhs)
    }

    /// Whether `dist` is at most twice the cover distance of `level`.
    pub fn covers_twice(&self, level: usize, dist: u64) -> (r: bool)
        ensures
            r == self.reaches_twice(level as nat, dist as nat),
    {
        let lhs = scaled_power(self.denominator as u32, level, dist);
        let rhs = scaled_power(self.numerator as u32, level, 2);
        at_most(&lhs, &rhs)
    }

    /// What one level covers, twice that level covers too.
    pub proof fn lemma_reaches_twice(self, level: nat, dist: nat)
        requires
            self.wf(),
            self.reaches(level, dist),
        ensures
            self.reaches_twice(level, dist),
    {
        lemma_pow_positive(self.num(), level);
    }

    /// Cover distances grow with the level.
    pub proof fn lemma_reaches_next_level(self, level: nat, dist: nat)
        requires
            self.wf(),
            self.reaches(level, dist),
        ensures
            self.reaches(level + 1, dist),
    {
        reveal(pow);
        let d = self.den();
        let n = self.num();
        let pd = pow(d, level);
        let pn = pow(n, level);
        lemma_pow_positive(n, level);
        assert(dist * (d * pd) <= n * pn) by (nonlinear_arith)
            requires
                dist * pd <= pn,
                0 < d < n,
                pn > 0,
                dist >= 0,
        ;
    }

    /// Where the span factor is at least two, what twice one level covers, the next level
    /// covers.
    pub proof fn lemma_reaches_twice_next_level(self, level: nat, dist: nat)
        requires
            self.wf(),
            self.num() >= 2 * self.den(),
            self.reaches_twice(level, dist),
        ensures
            self.reaches(level + 1, dist),
    {
        reveal(pow);
        let d = self.den();
        let n = self.num();
        let pd = pow(d, level);
        let pn = pow(n, level);
        lemma_pow_positive(n, level);
        assert(dist * (d * pd) <= n * pn) by (nonlinear_arith)
            requires
                dist * pd <= 2 * pn,
                0 < d,
                n >= 2 * d,
                pn > 0,
                dist >= 0,
        ;
    }

    /// Cover distances grow with the level, over any number of levels.
    pub proof fn lemma_reaches_higher_level(self, low: nat, high: nat, dist: nat)
        requires
            self.wf(),
            low <= high,
            self.reaches(low, dist),
        ensures
            self.reaches(high, dist),
        decreases high - low,
    {
        if low < high {
            self.lemma_reaches_next_level(low, dist);
            self.lemma_reaches_higher_level(low + 1, high, dist);
        }
    }

    /// From the level cap on, a node covers every distance that fits in 64 bits.
    pub proof fn lemma_reaches_from_cap(self, level: nat, dist: nat)
        requires
            self.wf(),
            level >= self.level_cap(),
            dist <= u64::MAX,
        ensures
            self.reaches(level, dist),
    {
        let d = self.den();
        let n = self.num();
        lemma_doubling_rounds(n, d, 64);
        assert(pow(2, 64) == 0x1_0000_0000_0000_0000) by {
            lemma2_to64();
            lemma_pow2(64);
        }
        let cap = self.level_cap();
        let pd = pow(d, cap);
        let pn = pow(n, cap);
        lemma_pow_positive(d, cap);
        assert(dist * pd <= pn) by (nonlinear_arith)
            requires
                pn >= 0x1_0000_0000_0000_0000 * pd,
                pd > 0,
                0 <= dist <= 0xffff_ffff_ffff_ffff,
        ;
        self.lemma_reaches_higher_level(cap, level, dist);
    }
}

/// A power grows with its base.
proof fn lemma_pow_base_grows(a: int, b: int, e: nat)
    requires
        0 <= a <= b,
    ensures
        0 <= pow(a, e) <= pow(b, e),
    decreases e,
{
    reveal(pow);
    if e > 0 {
        lemma_pow_base_grows(a, b, (e - 1) as nat);
        let pa = pow(a, (e - 1) as nat);
        let pb = pow(b, (e - 1) as nat);
        assert(0 <= a * pa <= b * pb) by (nonlinear_arith)
            requires
                0 <= a <= b,
                0 <= pa <= pb,
        ;
    }
}

/// Bernoulli's inequality, cleared of fractions: `(d + 1)^e * d >= d^e * (d + e)`.
proof fn lemma_bernoulli(d: int, e: nat)
    requires
        d >= 1,
    ensures
        pow(d + 1, e) * d >= pow(d, e) * (d + e),
    decreases e,
{
    reveal(pow);
    if e == 0 {
        assert(pow(d + 1, 0) * d == d) by (nonlinear_arith)
            requires
                pow(d + 1, 0) == 1,
        ;
        assert(pow(d, 0) * (d + 0) == d) by (nonlinear_arith)
            requires
                pow(d, 0) == 1,
        ;
    } else {
        let f = (e - 1) as nat;
        lemma_bernoulli(d, f);
        let p = pow(d + 1, f);
        let q = pow(d, f);
        lemma_pow_positive(d, f);
        assert(((d + 1) * p) * d >= (d * q) * (d + f + 1)) by (nonlinear_arith)
            requires
                p * d >= q * (d + f),
                d >= 1,
                q > 0,
                f >= 0,
        ;
    }
}

/// Raising a fraction greater than one to its own denominator at least doubles it.
proof fn lemma_doubling(n: int, d: int)
    requires
        0 < d < n,
    ensures
        pow(n, d as nat) >= 2 * pow(d, d as nat),
{
    let e = d as nat;
    lemma_bernoulli(d, e);
    lemma_pow_base_grows(d + 1, n, e);
    let p = pow(d + 1, e);
    let q = pow(d, e);
    assert(p >= 2 * q) by (nonlinear_arith)
        requires
            p * d >= q * (d + d),
            d >= 1,
    ;
}

/// After `rounds` times `d` levels the power of the numerator leads by `2^rounds`.
proof fn lemma_doubling_rounds(n: int, d: int, rounds: nat)
    requires
        0 < d < n,
    ensures
        pow(n, (rounds * d) as nat) >= pow(2, rounds) * pow(d, (rounds * d) as nat),
    decreases rounds,
{
    reveal(pow);
    if rounds == 0 {
        assert(pow(2, 0) * pow(d, 0) == 1) by (nonlinear_arith)
            requires
                pow(2, 0) == 1,
                pow(d, 0) == 1,
        ;
    } else {
        let r = (rounds - 1) as nat;
        lemma_doubling_rounds(n, d, r);
        lemma_doubling(n, d);
        let e = (r * d) as nat;
        assert(rounds * d == r * d + d) by (nonlinear_arith)
            requires
                rounds == r + 1,
        ;
        assert(r * d >= 0) by (nonlinear_arith)
            requires
                r >= 0,
                d > 0,
        ;
        lemma_pow_adds(n, e, d as nat);
        lemma_pow_adds(d, e, d as nat);
        lemma_pow_positive(d, e);
        lemma_pow_positive(d, d as nat);
        lemma_pow_positive(2, r);
        let a = pow(n, e);
        let b = pow(n, d as nat);
        let x = pow(d, e);
        let y = pow(d, d as nat);
        let t = pow(2, r);
        assert(a * b >= (2 * t) * (x * y)) by (nonlinear_arith)
            requires
                a >= t * x,
                b >= 2 * y,
                t > 0,
                x > 0,
                y > 0,
        ;
    }
}

} // verus!
