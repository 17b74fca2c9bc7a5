//! Euclid's algorithm for the greatest common divisor.
use vstd::arithmetic::div_mod::{
    lemma_fundamental_div_mod, lemma_mod_multiples_vanish, lemma_mod_self_0, lemma_small_mod,
};
use vstd::prelude::*;

verus! {

/// `d` divides `n` without remainder.
pub open spec fn divides(d: int, n: int) -> bool {
    d > 0 && n % d == 0
}

/// `g` is the greatest common divisor of `a` and `b`: it divides both, and
/// whatever divides both divides `g` and is no larger.
pub open spec fn is_gcd(g: int, a: int, b: int) -> bool {
    &&& divides(g, a)
    &&& divides(g, b)
    &&& forall|d: int| #[trigger] divides(d, a) && divides(d, b) ==> divides(d, g) && d <= g
}

/// Two numbers have one greatest common divisor only.
pub proof fn lemma_gcd_unique(g: int, h: int, a: int, b: int)
    requires
        is_gcd(g, a, b),
        is_gcd(h, a, b),
    ensures
        g == h,
{
    assert(divides(g, a) && divides(g, b));
    assert(divides(h, a) && divides(h, b));
}

/// Replacing `m` by its remainder modulo `n` changes no common divisor.
proof fn lemma_remainder_keeps_divisors(d: int, n: int, m: int)
    requires
        n > 0,
        m >= 0,
        divides(d, n),
    ensures
        divides(d, m) <==> divides(d, m % n),
{
    let q = m / n;
    let k = n / d;
    lemma_fundamental_div_mod(m, n);
    lemma_fundamental_div_mod(n, d);
    assert(n == d * k);
    assert(m == d * (k * q) + m % n) by (nonlinear_arith)
        requires
            m == n * q + m % n,
            n == d * k,
    ;
    lemma_mod_multiples_vanish(k * q, m % n, d);
}

/// A positive number is divided by nothing larger than itself.
proof fn lemma_divisor_bound(d: int, n: int)
    requires
        n > 0,
        divides(d, n),
    ensures
        d <= n,
{
    if d > n {
        lemma_small_mod(n as nat, d as nat);
    }
}

/// The greatest common divisor of two positive numbers, by Euclid's algorithm.
pub fn gcd(n: u16, m: u16) -> (g: u16)
    requires
        n > 0,
        m > 0,
    ensures
        is_gcd(g as int, n as int, m as int),
{
    let mut a: u16 = n;
    let mut b: u16 = m;
    while b != 0
        invariant
            a > 0,
            forall|d: int|
                #[trigger] divides(d, n as int) && divides(d, m as int) <==> divides(d, a as int)
                    && divides(d, b as int),
        decreases b,
    {
        if b < a {
            let t: u16 = b;
            b = a;
            a = t;
        }
        proof {
            assert forall|d: int| #[trigger] divides(d, a as int) implies (divides(d, b as int)
                <==> divides(d, (b % a) as int)) by {
                lemma_remainder_keeps_divisors(d, a as int, b as int);
            }
        }
        b = b % a;
    }
    proof {
        lemma_mod_self_0(a as int);
        assert(divides(a as int, a as int));
        assert(divides(a as int, 0));
        assert forall|d: int| #[trigger] divides(d, n as int) && divides(d, m as int) implies divides(
            d,
            a as int,
        ) && d <= a by {
            lemma_divisor_bound(d, a as int);
        }
    }
    a
}

} // verus!
