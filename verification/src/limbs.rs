//! Natural numbers of any size, held as 32-bit limbs with the least significant limb first.
//!
//! The cover distance of a node is a power of a fraction. Comparing it exactly with an
//! integer distance takes numbers far beyond 64 bits, which this module supplies.

use vstd::arithmetic::power::{lemma_pow_positive, pow};
use vstd::prelude::*;

verus! {

/// The weight of one limb position relative to the one before it.
pub open spec fn radix() -> int {
    0x1_0000_0000
}

/// The limb at position `i`, or zero beyond the end.
pub open spec fn limb(limbs: Seq<u32>, i: int) -> int {
    if 0 <= i < limbs.len() {
        limbs[i] as int
    } else {
        0
    }
}

/// The number spelled by the limbs at positions below `k`.
pub open spec fn prefix_value(limbs: Seq<u32>, k: nat) -> int
    decreases k,
{
    if k == 0 {
        0
    } else {
        prefix_value(limbs, (k - 1) as nat) + limb(limbs, k - 1) * pow(radix(), (k - 1) as nat)
    }
}

/// The number spelled by all the limbs.
pub open spec fn value(limbs: Seq<u32>) -> int {
    prefix_value(limbs, limbs.len())
}

/// The weight of position `k + 1` is the radix times the weight of position `k`.
pub proof fn lemma_weight_step(k: nat)
    ensures
        pow(radix(), k + 1) == radix() * pow(radix(), k),
        pow(radix(), k) > 0,
{
    reveal(pow);
    lemma_pow_positive(radix(), k);
}

/// `k` limbs spell a number below the weight of position `k`.
pub proof fn lemma_prefix_value_bound(limbs: Seq<u32>, k: nat)
    ensures
        0 <= prefix_value(limbs, k) < pow(radix(), k),
    decreases k,
{
    reveal(pow);
    if k > 0 {
        let j = (k - 1) as nat;
        lemma_prefix_value_bound(limbs, j);
        let w = pow(radix(), j);
        let d = limb(limbs, j as int);
        assert(0 <= d * w <= (radix() - 1) * w) by (nonlinear_arith)
            requires
                0 <= d <= radix() - 1,
                w > 0,
        ;
        assert((radix() - 1) * w + w == radix() * w) by (nonlinear_arith);
    }
}

/// Two limb sequences that agree below position `k` spell the same number there.
pub proof fn lemma_prefix_value_agrees(a: Seq<u32>, b: Seq<u32>, k: nat)
    requires
        forall|i: int| 0 <= i < k ==> limb(a, i) == limb(b, i),
    ensures
        prefix_value(a, k) == prefix_value(b, k),
    decreases k,
{
    if k > 0 {
        lemma_prefix_value_agrees(a, b, (k - 1) as nat);
    }
}

/// Positions beyond the last limb add nothing.
pub proof fn lemma_prefix_value_beyond(limbs: Seq<u32>, k: nat)
    requires
        k >= limbs.len(),
    ensures
        prefix_value(limbs, k) == value(limbs),
    decreases k,
{
    if k > limbs.len() {
        lemma_prefix_value_beyond(limbs, (k - 1) as nat);
        assert(limb(limbs, k - 1) * pow(radix(), (k - 1) as nat) == 0) by (nonlinear_arith)
            requires
                limb(limbs, k - 1) == 0,
        ;
    }
}

/// The limbs of a 64-bit number.
pub fn from_u64(n: u64) -> (limbs: Vec<u32>)
    ensures
        value(limbs@) == n,
{
    let low: u32 = (n % 0x1_0000_0000) as u32;
    let high: u32 = (n / 0x1_0000_0000) as u32;
    let mut limbs: Vec<u32> = Vec::new();
    limbs.push(low);
    limbs.push(high);
    proof {
        reveal_with_fuel(prefix_value, 3);
        reveal_with_fuel(pow, 2);
        assert(pow(radix(), 0) == 1);
        assert(pow(radix(), 1) == radix());
    }
    limbs
}

/// Multiplies the number held in `limbs` by `factor`.
pub fn mul_small(limbs: &mut Vec<u32>, factor: u32)
    ensures
        value(final(limbs)@) == factor * value(old(limbs)@),
{
    let ghost before = limbs@;
    let n: usize = limbs.len();
    let mut carry: u64 = 0;
    let mut i: usize = 0;
    while i < n
        invariant
            i <= n,
            limbs@.len() == n,
            before.len() == n,
            carry < 0x1_0000_0000,
            forall|j: int| i <= j < n ==> limbs@[j] == before[j],
            prefix_value(limbs@, i as nat) + carry * pow(radix(), i as nat) == factor
                * prefix_value(before, i as nat),
        decreases n - i,
    {
        let ghost entry = limbs@;
        let digit: u64 = limbs[i] as u64;
        assert(digit * factor + carry <= 0xffff_ffff_0000_0000) by (nonlinear_arith)
            requires
                digit <= 0xffff_ffff,
                factor <= 0xffff_ffff,
                carry <= 0xffff_ffff,
        ;
        let total: u64 = digit * (factor as u64) + carry;
        let kept: u32 = (total % 0x1_0000_0000) as u32;
        let next: u64 = total / 0x1_0000_0000;
        limbs[i] = kept;
        proof {
            let w = pow(radix(), i as nat);
            lemma_weight_step(i as nat);
            lemma_prefix_value_agrees(entry, limbs@, i as nat);
            assert(kept * w + next * (radix() * w) == (digit * factor + carry) * w)
                by (nonlinear_arith)
                requires
                    digit * factor + carry == kept + next * radix(),
            ;
            assert(factor * (prefix_value(before, i as nat) + digit * w) == factor
                * prefix_value(before, i as nat) + (digit * factor) * w) by (nonlinear_arith);
            assert((digit * factor + carry) * w == (digit * factor) * w + carry * w)
                by (nonlinear_arith);
        }
        carry = next;
        i = i + 1;
    }
    if carry > 0 {
        let ghost entry = limbs@;
        limbs.push(carry as u32);
        proof {
            lemma_prefix_value_agrees(entry, limbs@, n as nat);
        }
    } else {
        assert(carry * pow(radix(), n as nat) == 0) by (nonlinear_arith)
            requires
                carry == 0,
        ;
    }
}

/// The limbs of `scale * base^exponent`.
pub fn scaled_power(base: u32, exponent: usize, scale: u64) -> (limbs: Vec<u32>)
    ensures
        value(limbs@) == scale * pow(base as int, exponent as nat),
{
    let mut limbs: Vec<u32> = from_u64(scale);
    let mut done: usize = 0;
    proof {
        reveal(pow);
        assert(scale * pow(base as int, 0) == scale) by (nonlinear_arith)
            requires
                pow(base as int, 0) == 1,
        ;
    }
    while done < exponent
        invariant
            done <= exponent,
            value(limbs@) == scale * pow(base as int, done as nat),
        decreases exponent - done,
    {
        mul_small(&mut limbs, base);
        proof {
            reveal(pow);
            let p = pow(base as int, done as nat);
            assert(base * (scale * p) == scale * (base * p)) by (nonlinear_arith);
        }
        done = done + 1;
    }
    limbs
}

/// Whether the number held in `a` is at most the number held in `b`.
pub fn at_most(a: &Vec<u32>, b: &Vec<u32>) -> (r: bool)
    ensures
        r == (value(a@) <= value(b@)),
{
    let n: usize = if a.len() < b.len() {
        b.len()
    } else {
        a.len()
    };
    let mut below: bool = false;
    let mut level: bool = true;
    let mut k: usize = 0;
    while k < n
        invariant
            k <= n,
            n >= a@.len(),
            n >= b@.len(),
            below == (prefix_value(a@, k as nat) < prefix_value(b@, k as nat)),
            level == (prefix_value(a@, k as nat) == prefix_value(b@, k as nat)),
        decreases n - k,
    {
        let x: u32 = if k < a.len() {
            a[k]
        } else {
            0
        };
        let y: u32 = if k < b.len() {
            b[k]
        } else {
            0
        };
        proof {
            let w = pow(radix(), k as nat);
            let pa = prefix_value(a@, k as nat);
            let pb = prefix_value(b@, k as nat);
            lemma_prefix_value_bound(a@, k as nat);
            lemma_prefix_value_bound(b@, k as nat);
            if x < y {
                assert(pa + x * w < pb + y * w) by (nonlinear_arith)
                    requires
                        0 <= pa < w,
                        0 <= pb,
                        0 <= x < y,
                ;
            } else if x > y {
                assert(pb + y * w < pa + x * w) by (nonlinear_arith)
                    requires
                        0 <= pb < w,
                        0 <= pa,
                        0 <= y < x,
                ;
            }
        }
        if x < y {
            below = true;
            level = false;
        } else if x > y {
            below = false;
            level = false;
        }
        k = k + 1;
    }
    proof {
        lemma_prefix_value_beyond(a@, n as nat);
        lemma_prefix_value_beyond(b@, n as nat);
    }
    below || level
}

} // verus!
