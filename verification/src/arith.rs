//! Greatest common divisor and least common multiple: the specification
//! functions that the ratio enumerators' contracts are stated over, and the
//! trusted bridge to the executable implementation.

use vstd::arithmetic::div_mod::lemma_div_is_ordered_by_denominator;
use vstd::prelude::*;

verus! {

/// Greatest common divisor by Euclid's algorithm.
pub open spec fn gcd(a: nat, b: nat) -> nat
    decreases b,
{
    if b == 0 {
        a
    } else {
        gcd(b, a % b)
    }
}

/// Least common multiple, `a * b / gcd(a, b)`; zero when both arguments are zero.
pub open spec fn lcm(a: nat, b: nat) -> nat {
    if gcd(a, b) == 0 {
        0
    } else {
        a * b / gcd(a, b)
    }
}

/// The gcd of two numbers is positive as soon as one of them is.
pub proof fn lemma_gcd_pos(a: nat, b: nat)
    requires
        a >= 1 || b >= 1,
    ensures
        gcd(a, b) >= 1,
    decreases b,
{
    if b != 0 {
        lemma_gcd_pos(b, a % b);
    }
}

/// The lcm of two positive numbers is at most their product.
pub proof fn lemma_lcm_le_product(a: nat, b: nat)
    requires
        a >= 1,
        b >= 1,
    ensures
        lcm(a, b) <= a * b,
{
    lemma_gcd_pos(a, b);
    let g = gcd(a, b) as int;
    lemma_div_is_ordered_by_denominator((a * b) as int, 1, g);
    assert((a * b) as int / 1 == a * b);
}

/// Two coprime numbers have their product as lcm.
pub proof fn lemma_lcm_coprime(a: nat, b: nat)
    requires
        gcd(a, b) == 1,
    ensures
        lcm(a, b) == a * b,
{
    assert((a * b) as int / 1 == a * b);
}

/// Every positive number is coprime with one.
pub proof fn lemma_gcd_one(a: nat)
    requires
        a >= 1,
    ensures
        gcd(a, 1) == 1,
{
    assert(a % 1 == 0) by (nonlinear_arith);
    assert(gcd(a, 1) == gcd(1, 0));
}

/// Two consecutive numbers are coprime.
pub proof fn lemma_gcd_consecutive(d: nat)
    requires
        d >= 1,
    ensures
        gcd((d + 1) as nat, d) == 1,
{
    if d == 1 {
        assert(gcd(2, 1) == gcd(1, 0));
    } else {
        assert((d + 1) % d == 1) by (nonlinear_arith)
            requires
                d >= 2,
        ;
        assert(gcd((d + 1) as nat, d) == gcd(d, 1));
        lemma_gcd_one(d);
    }
}

/// For coprime pairs, the pair is determined by its numerator and its lcm.
pub proof fn lemma_coprime_pair_unique(n: nat, d1: nat, d2: nat)
    requires
        n >= 1,
        gcd(n, d1) == 1,
        gcd(n, d2) == 1,
        lcm(n, d1) == lcm(n, d2),
    ensures
        d1 == d2,
{
    lemma_lcm_coprime(n, d1);
    lemma_lcm_coprime(n, d2);
    assert(d1 == d2) by (nonlinear_arith)
        requires
            n >= 1,
            n * d1 == n * d2,
    ;
}

/// Relies on `num_integer::gcd_lcm`: it returns the greatest common divisor
/// and the least common multiple of its two arguments.
#[verifier::external_body]
pub(crate) fn gcd_lcm(a: u64, b: u64) -> (r: (u64, u64))
    requires
        1 <= a,
        1 <= b,
        lcm(a as nat, b as nat) <= u64::MAX,
    ensures
        r.0 == gcd(a as nat, b as nat),
        r.1 == lcm(a as nat, b as nat),
{
    num_integer::gcd_lcm(a, b)
}

} // verus!
