//! Powers of two and four used to size the sample grid and to bound the
//! progress counters.

use vstd::prelude::*;

verus! {

/// `2^n`.
pub open spec fn two_pow(n: nat) -> nat
    decreases n,
{
    if n == 0 {
        1
    } else {
        2 * two_pow((n - 1) as nat)
    }
}

/// `4^n`: the number of cells of a full grid of depth `n`.
pub open spec fn four_pow(n: nat) -> nat
    decreases n,
{
    if n == 0 {
        1
    } else {
        4 * four_pow((n - 1) as nat)
    }
}

pub proof fn lemma_two_pow_pos(n: nat)
    ensures
        two_pow(n) >= 1,
    decreases n,
{
    if n > 0 {
        lemma_two_pow_pos((n - 1) as nat);
    }
}

pub proof fn lemma_four_pow_pos(n: nat)
    ensures
        four_pow(n) >= 1,
    decreases n,
{
    if n > 0 {
        lemma_four_pow_pos((n - 1) as nat);
    }
}

pub proof fn lemma_two_pow_mono(a: nat, b: nat)
    requires
        a <= b,
    ensures
        two_pow(a) <= two_pow(b),
    decreases b,
{
    if a < b {
        lemma_two_pow_mono(a, (b - 1) as nat);
        lemma_two_pow_pos((b - 1) as nat);
    }
}

pub proof fn lemma_four_pow_mono(a: nat, b: nat)
    requires
        a <= b,
    ensures
        four_pow(a) <= four_pow(b),
    decreases b,
{
    if a < b {
        lemma_four_pow_mono(a, (b - 1) as nat);
        lemma_four_pow_pos((b - 1) as nat);
    }
}

pub proof fn lemma_two_pow_adds(a: nat, b: nat)
    ensures
        two_pow(a + b) == two_pow(a) * two_pow(b),
    decreases a,
{
    if a == 0 {
        assert(two_pow(b) * 1 == two_pow(b)) by (nonlinear_arith);
        assert(1 * two_pow(b) == two_pow(b)) by (nonlinear_arith);
    } else {
        let m = (a - 1) as nat;
        lemma_two_pow_adds(m, b);
        let t = two_pow(m) * two_pow(b);
        assert(two_pow(a + b) == 2 * t);
        assert(2 * (two_pow(m) * two_pow(b)) == (2 * two_pow(m)) * two_pow(b))
            by (nonlinear_arith);
    }
}

/// A full grid of depth `n` has as many cells as the square of its side.
pub proof fn lemma_four_pow_is_square(n: nat)
    ensures
        four_pow(n) == two_pow(n) * two_pow(n),
    decreases n,
{
    if n > 0 {
        let m = (n - 1) as nat;
        lemma_four_pow_is_square(m);
        let t = two_pow(m);
        assert(four_pow(n) == 4 * (t * t));
        assert(two_pow(n) == 2 * t);
        assert(4 * (t * t) == (2 * t) * (2 * t)) by (nonlinear_arith);
        assert(two_pow(n) * two_pow(n) == (2 * t) * (2 * t));
        assert(four_pow(n) == two_pow(n) * two_pow(n));
    } else {
        assert(four_pow(n) == 1);
        assert(two_pow(n) == 1);
        assert(four_pow(n) == two_pow(n) * two_pow(n)) by (nonlinear_arith)
            requires four_pow(n) == 1 && two_pow(n) == 1,
        ;
    }
}

/// Concrete ceiling: `2^17` in full, so every coordinate and counter bound
/// below the depth limit is comfortably small.
pub proof fn lemma_two_pow_17()
    ensures
        two_pow(17) == 131072,
{
    reveal_with_fuel(two_pow, 18);
}

/// Concrete value of `2^15`, the grid side at the depth limit.
pub proof fn lemma_two_pow_15()
    ensures
        two_pow(15) == 32768,
{
    reveal_with_fuel(two_pow, 16);
}

/// Concrete value of `4^15`, the cell count of a full grid at the depth
/// limit.
pub proof fn lemma_four_pow_15()
    ensures
        four_pow(15) == 0x4000_0000,
{
    reveal_with_fuel(four_pow, 16);
}

/// Compute `2^k` for the grid sizes this crate uses.
pub fn exec_two_pow(k: usize) -> (r: u64)
    requires
        k <= 17,
    ensures
        r == two_pow(k as nat),
{
    let mut r: u64 = 1;
    let mut i: usize = 0;
    while i < k
        invariant
            i <= k <= 17,
            r == two_pow(i as nat),
        decreases k - i,
    {
        proof {
            lemma_two_pow_mono((i + 1) as nat, 17);
            lemma_two_pow_17();
        }
        r = r * 2;
        i = i + 1;
    }
    r
}

} // verus!
