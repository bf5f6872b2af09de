//! Counting the arrangements of distinct elements.

use vstd::prelude::*;

verus! {

/// The number of arrangements of `n` distinct elements: the product of
/// the numbers from 1 to `n`.
pub open spec fn arrangements(n: nat) -> nat
    decreases n,
{
    if n == 0 {
        1
    } else {
        n * arrangements((n - 1) as nat)
    }
}

/// More elements have at least as many arrangements, and there is
/// always one.
pub proof fn lemma_arrangements_grow(a: nat, b: nat)
    requires
        a <= b,
    ensures
        1 <= arrangements(a) <= arrangements(b),
    decreases b,
{
    if a < b {
        lemma_arrangements_grow(a, (b - 1) as nat);
        assert(arrangements((b - 1) as nat) <= b * arrangements((b - 1) as nat))
            by (nonlinear_arith)
            requires
                b >= 1,
        ;
    } else if a > 0 {
        lemma_arrangements_grow((a - 1) as nat, (a - 1) as nat);
        assert(1 <= a * arrangements((a - 1) as nat)) by (nonlinear_arith)
            requires
                a >= 1,
                arrangements((a - 1) as nat) >= 1,
        ;
    }
}

/// The product of the numbers from 1 to `n`.
pub fn factorial(n: usize) -> (m: usize)
    requires
        arrangements(n as nat) <= usize::MAX,
    ensures
        m == arrangements(n as nat),
{
    let mut m: usize = 1;
    let mut i: usize = 1;
    proof {
        reveal_with_fuel(arrangements, 2);
    }
    while i < n
        invariant
            1 <= i,
            i <= n || n == 0,
            m == arrangements(i as nat),
            n == 0 ==> m == 1,
            arrangements(n as nat) <= usize::MAX,
        decreases n - i,
    {
        i += 1;
        proof {
            lemma_arrangements_grow(i as nat, n as nat);
            lemma_next_product(i as nat, m as nat);
        }
        m = m * i;
    }
    m
}

/// The product of the numbers from 1 to `n`, or `None` where it is
/// more than a `usize` holds.
pub fn checked_factorial(n: usize) -> (m: Option<usize>)
    ensures
        match m {
            Some(v) => v == arrangements(n as nat),
            None => arrangements(n as nat) > usize::MAX,
        },
{
    let mut m: usize = 1;
    let mut i: usize = 1;
    proof {
        reveal_with_fuel(arrangements, 2);
    }
    while i < n
        invariant
            1 <= i,
            i <= n || n == 0,
            m == arrangements(i as nat),
            n == 0 ==> m == 1,
        decreases n - i,
    {
        i += 1;
        proof {
            lemma_arrangements_grow(i as nat, n as nat);
            lemma_next_product(i as nat, m as nat);
        }
        match m.checked_mul(i) {
            Some(product) => {
                m = product;
            },
            None => {
                return None;
            },
        }
    }
    Some(m)
}

proof fn lemma_next_product(i: nat, m: nat)
    requires
        i >= 1,
        m == arrangements((i - 1) as nat),
    ensures
        m * i == arrangements(i),
{
    assert(m * i == i * m) by (nonlinear_arith);
}

} // verus!
