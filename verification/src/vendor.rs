//! Shared numeric helpers: greatest common divisor and least common
//! multiple, used to combine cycle lengths.

use vstd::prelude::*;

verus! {

/// The greatest common divisor by Euclid's rule; `gcd(a, 0) == a`.
pub open spec fn gcd_spec(a: int, b: int) -> int
    decreases b,
{
    if b <= 0 {
        a
    } else {
        gcd_spec(b, a % b)
    }
}

/// The least common multiple as the product divided by the greatest
/// common divisor; 0 when either side is 0.
pub open spec fn lcm_spec(a: int, b: int) -> int {
    if gcd_spec(a, b) <= 0 {
        0
    } else {
        (a / gcd_spec(a, b)) * b
    }
}

/// The least common multiple of all values of `s`, folded from 1.
pub open spec fn lcm_fold(s: Seq<u64>, i: int) -> int
    decreases s.len() - i,
{
    if i < 0 || i >= s.len() {
        1
    } else {
        lcm_spec(lcm_fold(s, i + 1), s[i] as int)
    }
}

pub proof fn lemma_gcd_bounds(a: int, b: int)
    requires
        a >= 0,
        b >= 0,
    ensures
        gcd_spec(a, b) >= 0,
        b > 0 ==> gcd_spec(a, b) <= b,
    decreases b,
{
    if b > 0 {
        vstd::arithmetic::div_mod::lemma_mod_bound(a, b);
        lemma_gcd_bounds(b, a % b);
    }
}

pub fn gcd(a: u64, b: u64) -> (r: u64)
    ensures
        r as int == gcd_spec(a as int, b as int),
    decreases b,
{
    if b == 0 {
        a
    } else {
        proof {
            vstd::arithmetic::div_mod::lemma_mod_bound(a as int, b as int);
        }
        gcd(b, a % b)
    }
}

/// The least common multiple of two values; requires the result to fit.
pub fn lcm_pair(a: u64, b: u64) -> (r: u64)
    requires
        lcm_spec(a as int, b as int) <= u64::MAX,
    ensures
        r as int == lcm_spec(a as int, b as int),
{
    let g = gcd(a, b);
    proof {
        lemma_gcd_bounds(a as int, b as int);
    }
    if g == 0 {
        0
    } else {
        proof {
            vstd::arithmetic::div_mod::lemma_div_pos_is_pos(a as int, g as int);
        }
        (a / g) * b
    }
}

/// The least common multiple of all the values.
#[verifier::loop_isolation(false)]
pub fn lcm(factors: &[u64]) -> (r: u64)
    requires
        forall|i: int| 0 <= i <= factors@.len() ==> 0 <= #[trigger] lcm_fold(factors@, i) <= u64::MAX,
    ensures
        r as int == lcm_fold(factors@, 0),
{
    let n = factors.len();
    let mut out: u64 = 1;
    let mut i: usize = n;
    while i > 0
        invariant
            i <= n,
            n == factors@.len(),
            out as int == lcm_fold(factors@, i as int),
        decreases i,
    {
        let v = factors[i - 1];
        proof {
            assert(0 <= lcm_fold(factors@, i - 1) <= u64::MAX);
            assert(lcm_fold(factors@, i - 1) == lcm_spec(
                lcm_fold(factors@, i as int),
                factors@[i - 1] as int,
            ));
        }
        out = lcm_pair(out, v);
        i -= 1;
    }
    out
}

} // verus!
