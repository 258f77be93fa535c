//! Divisibility facts about prime moduli: a prime that divides a product
//! divides one of its factors, multiplication by a unit can be cancelled, and
//! every nonzero residue has a multiplicative inverse.
use vstd::prelude::*;
use vstd::arithmetic::div_mod::lemma_fundamental_div_mod;
use vstd::arithmetic::div_mod::lemma_mod_bound;
use vstd::arithmetic::div_mod::lemma_mod_equivalence;
use vstd::arithmetic::div_mod::lemma_mod_multiples_basic;
use vstd::arithmetic::div_mod::lemma_mod_multiples_vanish;
use vstd::arithmetic::div_mod::lemma_mul_mod_noop_left;
use vstd::arithmetic::div_mod::lemma_mul_mod_noop_right;
use vstd::arithmetic::div_mod::lemma_small_mod;
use vstd::arithmetic::div_mod::lemma_sub_mod_noop;

verus! {

/// `n` is prime: at least 2, and divisible by no `d` with `1 < d < n`.
pub open spec fn is_prime(n: nat) -> bool {
    n >= 2 && forall|d: nat| 1 < d < n ==> #[trigger] (n % d) != 0
}

/// Euclid's lemma, with the first factor already reduced: descend along the
/// remainders of `p` by `a`, which stay coprime to `p` and shrink.
proof fn lemma_divides_factor_descent(a: nat, b: nat, p: nat)
    requires
        is_prime(p),
        0 < a < p,
        (a * b) % p == 0,
    ensures
        b % p == 0,
    decreases a,
{
    if a == 1 {
        assert(a * b == b);
    } else {
        let q = p / a;
        let r = p % a;
        lemma_mod_bound(p as int, a as int);
        if r == 0 {
            // a proper divisor of p contradicts primality
            assert(p % a != 0);
        }
        lemma_fundamental_div_mod(p as int, a as int);
        assert(p == q * a + r);
        // r * b == p * b - q * (a * b), and both summands vanish mod p
        assert(r * b == p * b - q * (a * b)) by (nonlinear_arith)
            requires
                p == q * a + r,
        ;
        assert((p * b) % p == 0) by {
            lemma_mod_multiples_basic(b as int, p as int);
            assert(p as int * b as int == b as int * p as int) by (nonlinear_arith);
        }
        assert((q * (a * b)) % p == 0) by {
            lemma_mul_mod_noop_right(q as int, (a * b) as int, p as int);
        }
        lemma_small_mod(0nat, p);
        lemma_sub_mod_noop((p * b) as int, (q * (a * b)) as int, p as int);
        assert((r * b) % p == 0);
        lemma_divides_factor_descent(r, b, p);
    }
}

/// Euclid's lemma: if a prime `p` divides `a * b`, it divides `a` or `b`.
pub proof fn lemma_prime_divides_factor(p: nat, a: nat, b: nat)
    requires
        is_prime(p),
        (a * b) % p == 0,
    ensures
        a % p == 0 || b % p == 0,
{
    if a % p != 0 {
        let a0 = a % p;
        lemma_mod_bound(a as int, p as int);
        lemma_mul_mod_noop_left(a as int, b as int, p as int);
        lemma_divides_factor_descent(a0, b, p);
    }
}

/// The product of two residues that a prime does not divide is again one it
/// does not divide.
pub proof fn lemma_mod_mul_nonzero(p: nat, a: nat, b: nat)
    requires
        is_prime(p),
        a % p != 0,
        b % p != 0,
    ensures
        (a * b) % p != 0,
{
    if (a * b) % p == 0 {
        lemma_prime_divides_factor(p, a, b);
    }
}

/// Cancellation: a common factor that the prime does not divide can be
/// removed from a congruence.
pub proof fn lemma_mod_mul_cancel(p: nat, c: nat, x: nat, y: nat)
    requires
        is_prime(p),
        c % p != 0,
        (c * x) % p == (c * y) % p,
    ensures
        x % p == y % p,
{
    lemma_mod_equivalence((c * x) as int, (c * y) as int, p as int);
    assert((c * x - c * y) as int == c as int * (x as int - y as int)) by (nonlinear_arith);
    if x >= y {
        let d = (x - y) as nat;
        assert((c * d) % p == 0);
        lemma_prime_divides_factor(p, c, d);
        lemma_mod_equivalence(x as int, y as int, p as int);
    } else {
        let d = (y - x) as nat;
        assert((c * y - c * x) as int == c as int * (y as int - x as int)) by (nonlinear_arith);
        lemma_mod_equivalence((c * y) as int, (c * x) as int, p as int);
        assert((c * d) % p == 0);
        lemma_prime_divides_factor(p, c, d);
        lemma_mod_equivalence(y as int, x as int, p as int);
    }
}

/// Every residue in `[1, p)` has a multiplicative inverse mod the prime `p`,
/// found by descending along the remainder of `p` by the residue.
pub proof fn lemma_mod_inverse_exists(a: nat, p: nat) -> (x: nat)
    requires
        is_prime(p),
        1 <= a < p,
    ensures
        1 <= x < p,
        (a * x) % p == 1,
    decreases a,
{
    if a == 1 {
        lemma_small_mod(1nat, p);
        1
    } else {
        let q = p / a;
        let r = p % a;
        lemma_mod_bound(p as int, a as int);
        if r == 0 {
            assert(p % a != 0);
        }
        lemma_fundamental_div_mod(p as int, a as int);
        assert(p == q * a + r);
        let y = lemma_mod_inverse_exists(r, p);
        let t = (q * y) % p;
        lemma_mod_bound((q * y) as int, p as int);
        let x = ((p as int - t as int) % (p as int)) as nat;
        lemma_mod_bound((p - t) as int, p as int);
        // a * x ≡ a * (p - t) ≡ -(a * (q * y)) ≡ (r - p) * y ≡ r * y ≡ 1 (mod p)
        lemma_mul_mod_noop_right(a as int, (p - t) as int, p as int);
        assert(a as int * ((p - t) as int) == p * a + (-(a as int * (t as int))))
            by (nonlinear_arith);
        lemma_mod_multiples_vanish(a as int, -(a as int * (t as int)), p as int);
        // replace t by q * y under the product with a
        lemma_mul_mod_noop_right(a as int, (q * y) as int, p as int);
        lemma_mod_equivalence((a * (q * y)) as int, (a as int) * (t as int), p as int);
        assert((-(a as int * t as int)) - (-((a * (q * y)) as int)) == (a * (q * y)) as int - (
        a as int) * (t as int)) by (nonlinear_arith);
        lemma_mod_equivalence(-(a as int * t as int), -((a * (q * y)) as int), p as int);
        // -(a * (q * y)) == r * y - p * y
        assert(-((a * (q * y)) as int) == r as int * y as int - p as int * y as int)
            by (nonlinear_arith)
            requires
                p == q * a + r,
        ;
        lemma_mod_multiples_vanish(-(y as int), (r * y) as int, p as int);
        assert(p as int * (-(y as int)) + (r * y) as int == -((a * (q * y)) as int))
            by (nonlinear_arith)
            requires
                p == q * a + r,
        ;
        assert((a * x) % p == (r * y) % p);
        if x == 0 {
            assert(a * x == 0) by (nonlinear_arith)
                requires
                    x == 0,
            ;
            lemma_small_mod(0nat, p);
        }
        x
    }
}

} // verus!
