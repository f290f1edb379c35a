//! The Fibonacci series, as far as it was ever asked for: at most 99 terms.

use vstd::arithmetic::power2::{
    lemma2_to64, lemma2_to64_rest, lemma_pow2_adds, lemma_pow2_unfold, pow2,
};
use vstd::prelude::*;

verus! {

/// The most terms that are handed out at once.
pub const MAX_TERMS: u8 = 99;

/// The Fibonacci numbers: 0, 1, and from then on the sum of the two before.
pub open spec fn fib(n: nat) -> nat
    decreases n,
{
    if n == 0 {
        0
    } else if n == 1 {
        1
    } else {
        fib((n - 1) as nat) + fib((n - 2) as nat)
    }
}

/// The Fibonacci numbers grow no faster than the powers of two.
pub proof fn lemma_fib_below_pow2(n: nat)
    ensures
        fib(n) <= pow2(n),
    decreases n,
{
    if n == 0 {
        lemma2_to64();
    } else if n == 1 {
        lemma2_to64();
    } else {
        lemma_fib_below_pow2((n - 1) as nat);
        lemma_fib_below_pow2((n - 2) as nat);
        lemma_pow2_unfold(n);
        lemma_pow2_unfold((n - 1) as nat);
    }
}

proof fn lemma_fib_fits(n: nat)
    requires
        n <= 100,
    ensures
        fib(n) <= u128::MAX,
    decreases 100 - n,
{
    if n == 100 {
        lemma_fib_below_pow2(100);
        lemma_pow2_adds(64, 36);
        lemma2_to64();
        lemma2_to64_rest();
        assert(pow2(64) * pow2(36) == 0x1_0000_0000_0000_0000_0000_0000_0int) by (nonlinear_arith)
            requires
                pow2(64) == 0x1_0000_0000_0000_0000int,
                pow2(36) == 0x10_0000_0000int,
        ;
    } else {
        lemma_fib_fits(n + 1);
        lemma_fib_grows(n);
    }
}

proof fn lemma_fib_grows(n: nat)
    ensures
        fib(n) <= fib(n + 1),
{
}

/// The first `n` Fibonacci numbers, or nothing where more than
/// [`MAX_TERMS`] are asked for.
pub fn fibonacci_series(n: u8) -> (series: Option<Vec<u128>>)
    ensures
        n > MAX_TERMS ==> series is None,
        n <= MAX_TERMS ==> series is Some && series->0@.len() == n && forall|i: int|
            0 <= i < n ==> series->0@[i] == fib(i as nat),
{
    if n > MAX_TERMS {
        return None;
    }
    let mut terms: Vec<u128> = Vec::new();
    let mut a: u128 = 0;
    let mut b: u128 = 1;
    let mut i: u8 = 0;
    while i < n
        invariant
            i <= n <= MAX_TERMS,
            a == fib(i as nat),
            b == fib((i + 1) as nat),
            terms@.len() == i,
            forall|k: int| 0 <= k < i ==> terms@[k] == fib(k as nat),
        decreases n - i,
    {
        terms.push(a);
        proof {
            lemma_fib_fits((i + 2) as nat);
        }
        let c = a + b;
        a = b;
        b = c;
        i += 1;
    }
    Some(terms)
}

} // verus!
