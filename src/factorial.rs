//! The factorial of a natural number.

use vstd::prelude::*;

verus! {

/// `1 * 2 * ... * n`, with `0! = 1`.
pub open spec fn fact(n: nat) -> nat
    decreases n,
{
    if n == 0 {
        1
    } else {
        n * fact((n - 1) as nat)
    }
}

/// The factorial of `value`, for a `value` whose factorial fits in 64 bits.
pub fn factorial(value: u64) -> (r: u64)
    requires
        fact(value as nat) <= u64::MAX,
    ensures
        r == fact(value as nat),
{
    let mut curr: u64 = 1;
    let mut i: u64 = 0;
    while i < value
        invariant
            i <= value,
            curr == fact(i as nat),
            fact(value as nat) <= u64::MAX,
        decreases value - i,
    {
        proof {
            lemma_fact_monotone((i + 1) as nat, value as nat);
        }
        i += 1;
        assert(fact(i as nat) == i * fact((i - 1) as nat));
        assert(curr * i == fact(i as nat)) by (nonlinear_arith)
            requires
                curr == fact((i - 1) as nat),
                fact(i as nat) == i * fact((i - 1) as nat),
        ;
        curr = curr * i;
    }
    curr
}

/// The factorial does not decrease.
proof fn lemma_fact_monotone(a: nat, b: nat)
    requires
        a <= b,
    ensures
        fact(a) <= fact(b),
    decreases b - a,
{
    if a < b {
        lemma_fact_monotone(a, (b - 1) as nat);
        assert(fact(b) == b * fact((b - 1) as nat));
        assert(fact((b - 1) as nat) <= b * fact((b - 1) as nat)) by (nonlinear_arith)
            requires b >= 1;
    }
}

} // verus!
