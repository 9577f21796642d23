//! Integer combinatorics shared with the auxiliary
//! Taylor--series-style integral formulas.

use crate::os86::fact;
use crate::os86::lemma_fact20;
use crate::os86::lemma_fact_mono;
use crate::os86::lemma_fact_pos;
use factorial::Factorial;
use vstd::prelude::*;

verus! {

/// Relies on `factorial::Factorial::factorial` for `u64`: it returns `n!`
/// and panics only when `n!` overflows the type, which `n <= 20` rules out.
#[verifier::external_body]
fn factorial_u64(n: u64) -> (r: u64)
    requires
        n <= 20,
    ensures
        r == fact(n as int),
{
    n.factorial()
}

/// `a! / b! / (a - 2b)!`, evaluated left to right in integer division, as the
/// auxiliary integral formulas use it.
pub fn fact_ratio2(a: i64, b: i64) -> (r: i64)
    requires
        0 <= b,
        0 <= a - 2 * b,
        a <= 20,
    ensures
        r == fact(a as int) / fact(b as int) / fact(a as int - 2 * b),
{
    proof {
        lemma_fact_pos(a as int);
        lemma_fact_pos(b as int);
        lemma_fact_pos(a as int - 2 * b);
        lemma_fact_mono(a as int, 20);
        lemma_fact_mono(b as int, 20);
        lemma_fact_mono(a as int - 2 * b, 20);
        lemma_fact20();
    }
    let fa = factorial_u64(a as u64);
    let fb = factorial_u64(b as u64);
    let fc = factorial_u64((a - 2 * b) as u64);
    let q = fa / fb / fc;
    proof {
        assert(fa / fb <= fa) by (nonlinear_arith)
            requires
                fb >= 1,
                fa >= 0,
        ;
        assert(fa / fb / fc <= fa / fb) by (nonlinear_arith)
            requires
                fc >= 1,
                fa / fb >= 0,
        ;
    }
    q as i64
}

} // verus!
