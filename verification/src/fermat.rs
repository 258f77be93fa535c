//! Fermat's little theorem, by the permutation argument: for a prime `p` and
//! a residue `a` that `p` does not divide, the reduced multiples
//! `a·1 % p, …, a·(p−1) % p` are exactly `1, …, p−1` rearranged. The two
//! products therefore agree mod `p`, and cancelling `(p−1)!` leaves
//! `a^(p−1) ≡ 1 (mod p)` — the fact that lets the field invert by
//! exponentiation.
use vstd::prelude::*;
use vstd::arithmetic::div_mod::lemma_mod_bound;
use vstd::arithmetic::div_mod::lemma_mul_mod_noop_left;
use vstd::arithmetic::div_mod::lemma_mul_mod_noop_right;
use vstd::arithmetic::div_mod::lemma_small_mod;
use vstd::arithmetic::power::lemma_pow_adds;
use vstd::arithmetic::power::lemma_pow_positive;
use vstd::arithmetic::power::lemma_pow1;
use vstd::arithmetic::power::pow;
use vstd::multiset::Multiset;

use crate::primality::is_prime;
use crate::primality::lemma_mod_inverse_exists;
use crate::primality::lemma_mod_mul_cancel;
use crate::primality::lemma_mod_mul_nonzero;

verus! {

broadcast use vstd::multiset::group_multiset_axioms;

/// The factorial `n!`.
pub open spec fn fact(n: nat) -> nat
    decreases n,
{
    if n == 0 {
        1
    } else {
        n * fact((n - 1) as nat)
    }
}

/// The `i`-th multiple of `a`, reduced mod `p`.
pub open spec fn red(a: nat, i: nat, p: nat) -> nat {
    (a * i) % p
}

/// The product of the reduced multiples `red(a, 1, p) · … · red(a, n, p)`.
pub open spec fn residue_prod(a: nat, n: nat, p: nat) -> nat
    decreases n,
{
    if n == 0 {
        1
    } else {
        red(a, n, p) * residue_prod(a, (n - 1) as nat, p)
    }
}

/// The multiset `{1, …, n}`.
pub open spec fn range_mset(n: nat) -> Multiset<nat>
    decreases n,
{
    if n == 0 {
        Multiset::empty()
    } else {
        range_mset((n - 1) as nat).insert(n)
    }
}

/// The multiset `{red(a, 1, p), …, red(a, n, p)}`.
pub open spec fn residue_mset(a: nat, n: nat, p: nat) -> Multiset<nat>
    decreases n,
{
    if n == 0 {
        Multiset::empty()
    } else {
        residue_mset(a, (n - 1) as nat, p).insert(red(a, n, p))
    }
}

/// The product of all elements of a multiset, one chosen at a time.
pub open spec fn mset_prod(m: Multiset<nat>) -> nat
    decreases m.len(),
    via mset_prod_decreases
{
    if m.len() == 0 {
        1
    } else {
        m.choose() * mset_prod(m.remove(m.choose()))
    }
}

#[via_fn]
proof fn mset_prod_decreases(m: Multiset<nat>) {
    if m.len() != 0 {
        let x = m.choose();
        assert(m.count(x) > 0);
        assert forall|v: nat| Multiset::<nat>::singleton(x).count(v) <= m.count(v) by {
            if v == x {
            }
        }
        assert(Multiset::<nat>::singleton(x).subset_of(m));
        assert(m.remove(x).len() == m.len() - 1);
    }
}

/// The product over a multiset with one more element is that element times
/// the product over the rest; in particular the product does not depend on
/// the order in which `mset_prod` happens to pick elements.
pub proof fn lemma_mset_prod_insert(m: Multiset<nat>, x: nat)
    ensures
        mset_prod(m.insert(x)) == x * mset_prod(m),
    decreases m.len(),
{
    let mi = m.insert(x);
    assert(mi.len() == m.len() + 1);
    let y = mi.choose();
    assert(mi.count(y) > 0);
    if y == x {
        assert forall|v: nat| mi.remove(x).count(v) == m.count(v) by {
            if v == x {
            }
        }
        assert(mi.remove(x) =~= m);
        assert(mset_prod(mi) == y * mset_prod(mi.remove(y)));
    } else {
        assert(m.count(y) > 0);
        let mr = m.remove(y);
        assert(mr.len() == m.len() - 1) by {
            assert forall|v: nat| Multiset::<nat>::singleton(y).count(v) <= m.count(v) by {
                if v == y {
                }
            }
            assert(Multiset::<nat>::singleton(y).subset_of(m));
        }
        assert forall|v: nat| mi.remove(y).count(v) == mr.insert(x).count(v) by {
            if v == y {
            }
        }
        assert(mi.remove(y) =~= mr.insert(x));
        lemma_mset_prod_insert(mr, x);
        lemma_mset_prod_insert(mr, y);
        assert forall|v: nat| mr.insert(y).count(v) == m.count(v) by {
            if v == y {
            }
        }
        assert(mr.insert(y) =~= m);
        assert(mset_prod(mi) == y * mset_prod(mi.remove(y)));
        assert(y * (x * mset_prod(mr)) == x * (y * mset_prod(mr))) by (nonlinear_arith);
    }
}

/// The multiset product over `{1, …, n}` is `n!`.
pub proof fn lemma_mset_prod_range(n: nat)
    ensures
        mset_prod(range_mset(n)) == fact(n),
    decreases n,
{
    if n == 0 {
        assert(range_mset(0).len() == 0);
    } else {
        lemma_mset_prod_range((n - 1) as nat);
        lemma_mset_prod_insert(range_mset((n - 1) as nat), n);
    }
}

/// The multiset product over the reduced multiples is `residue_prod`.
pub proof fn lemma_mset_prod_residue(a: nat, n: nat, p: nat)
    ensures
        mset_prod(residue_mset(a, n, p)) == residue_prod(a, n, p),
    decreases n,
{
    if n == 0 {
        assert(residue_mset(a, 0, p).len() == 0);
    } else {
        let n1 = (n - 1) as nat;
        lemma_mset_prod_residue(a, n1, p);
        lemma_mset_prod_insert(residue_mset(a, n1, p), red(a, n, p));
    }
}

/// Reducing each multiple before multiplying changes nothing mod `p`:
/// `residue_prod(a, n, p) ≡ a^n · n! (mod p)`.
pub proof fn lemma_residue_prod_mod(a: nat, n: nat, p: nat)
    requires
        p >= 2,
    ensures
        (residue_prod(a, n, p) as int) % (p as int) == (pow(a as int, n) * fact(n) as int) % (
        p as int),
    decreases n,
{
    let pi = p as int;
    reveal(pow);
    if n == 0 {
    } else {
        let n1 = (n - 1) as nat;
        lemma_residue_prod_mod(a, n1, p);
        let rp = residue_prod(a, n1, p);
        let prev = pow(a as int, n1) * fact(n1) as int;
        // peel the reduction off the newest factor, then rewrite the tail
        lemma_mul_mod_noop_left((a * n) as int, rp as int, pi);
        lemma_mul_mod_noop_right((a * n) as int, rp as int, pi);
        lemma_mul_mod_noop_right((a * n) as int, prev, pi);
        assert((a * n) as int * prev == pow(a as int, n) * fact(n) as int) by (nonlinear_arith)
            requires
                pow(a as int, n) == a as int * pow(a as int, n1),
                fact(n) == n * fact(n1),
                prev == pow(a as int, n1) * fact(n1) as int,
        ;
    }
}

/// Whether some multiple `a·i` with `1 ≤ i ≤ n` reduces to `v` mod `p`.
pub open spec fn hits(a: nat, n: nat, p: nat, v: nat) -> bool {
    exists|i: nat| 1 <= i <= n && #[trigger] red(a, i, p) == v
}

/// Each value occurs in the multiset of reduced multiples at most once —
/// distinct multiples of a unit stay distinct mod a prime — and exactly when
/// some multiple reduces to it.
pub proof fn lemma_residue_mset_count(a: nat, n: nat, p: nat, v: nat)
    requires
        is_prime(p),
        a % p != 0,
        n < p,
    ensures
        residue_mset(a, n, p).count(v) == if hits(a, n, p, v) {
            1nat
        } else {
            0nat
        },
    decreases n,
{
    if n == 0 {
        assert(!hits(a, 0, p, v));
    } else {
        let n1 = (n - 1) as nat;
        lemma_residue_mset_count(a, n1, p, v);
        if red(a, n, p) == v {
            assert(!hits(a, n1, p, v)) by {
                if hits(a, n1, p, v) {
                    let i = choose|i: nat| 1 <= i <= n1 && #[trigger] red(a, i, p) == v;
                    lemma_mod_mul_cancel(p, a, i, n);
                    lemma_small_mod(i, p);
                    lemma_small_mod(n, p);
                }
            }
            assert(hits(a, n, p, v));
        } else {
            if hits(a, n, p, v) {
                let i = choose|i: nat| 1 <= i <= n && #[trigger] red(a, i, p) == v;
                assert(1 <= i <= n1);
                assert(hits(a, n1, p, v));
            }
            if hits(a, n1, p, v) {
                let i = choose|i: nat| 1 <= i <= n1 && #[trigger] red(a, i, p) == v;
                assert(1 <= i <= n);
                assert(hits(a, n, p, v));
            }
        }
    }
}

/// Each value occurs in `{1, …, n}` exactly once.
pub proof fn lemma_range_mset_count(n: nat, v: nat)
    ensures
        range_mset(n).count(v) == if 1 <= v <= n {
            1nat
        } else {
            0nat
        },
    decreases n,
{
    if n == 0 {
    } else {
        lemma_range_mset_count((n - 1) as nat, v);
    }
}

/// The reduced multiples of a unit are a permutation of `{1, …, p−1}`:
/// they are distinct, nonzero, and — multiplying by the inverse residue —
/// every value in `{1, …, p−1}` is reached.
pub proof fn lemma_residue_mset_eq_range(a: nat, p: nat)
    requires
        is_prime(p),
        a % p != 0,
    ensures
        residue_mset(a, (p - 1) as nat, p) == range_mset((p - 1) as nat),
{
    let n = (p - 1) as nat;
    assert forall|v: nat| residue_mset(a, n, p).count(v) == range_mset(n).count(v) by {
        lemma_residue_mset_count(a, n, p, v);
        lemma_range_mset_count(n, v);
        if 1 <= v <= n {
            lemma_mod_bound(a as int, p as int);
            let inv = lemma_mod_inverse_exists(a % p, p);
            lemma_mul_mod_noop_left(a as int, inv as int, p as int);
            assert((a * inv) % p == 1);
            let i = (inv * v) % p;
            lemma_mod_bound((inv * v) as int, p as int);
            lemma_mul_mod_noop_right(a as int, (inv * v) as int, p as int);
            assert(a * (inv * v) == (a * inv) * v) by (nonlinear_arith);
            lemma_mul_mod_noop_left((a * inv) as int, v as int, p as int);
            lemma_small_mod(v, p);
            assert((a * i) % p == v);
            if i == 0 {
                assert(a * i == 0) by (nonlinear_arith)
                    requires
                        i == 0,
                ;
                lemma_small_mod(0nat, p);
            }
            assert(1 <= i <= n && red(a, i, p) == v);
            assert(hits(a, n, p, v));
        } else {
            if hits(a, n, p, v) {
                let i = choose|i: nat| 1 <= i <= n && #[trigger] red(a, i, p) == v;
                lemma_mod_bound((a * i) as int, p as int);
                lemma_small_mod(i, p);
                lemma_mod_mul_nonzero(p, a, i);
                assert(false);
            }
        }
    }
    assert(residue_mset(a, n, p) =~= range_mset(n));
}

/// A prime divides no factorial of a smaller number.
pub proof fn lemma_fact_nonzero_mod(n: nat, p: nat)
    requires
        is_prime(p),
        n < p,
    ensures
        fact(n) % p != 0,
    decreases n,
{
    if n == 0 {
        lemma_small_mod(1nat, p);
    } else {
        lemma_fact_nonzero_mod((n - 1) as nat, p);
        lemma_small_mod(n, p);
        lemma_mod_mul_nonzero(p, n, fact((n - 1) as nat));
    }
}

/// Fermat's little theorem: `a^(p−1) ≡ 1 (mod p)` for a prime `p` and any
/// `a` that `p` does not divide.
pub proof fn lemma_fermat_little(a: nat, p: nat)
    requires
        is_prime(p),
        a % p != 0,
    ensures
        pow(a as int, (p - 1) as nat) % (p as int) == 1,
{
    let n = (p - 1) as nat;
    let pi = p as int;
    lemma_mset_prod_residue(a, n, p);
    lemma_mset_prod_range(n);
    lemma_residue_mset_eq_range(a, p);
    assert(residue_prod(a, n, p) == fact(n));
    lemma_residue_prod_mod(a, n, p);
    assert((pow(a as int, n) * fact(n) as int) % pi == fact(n) as int % pi);
    lemma_fact_nonzero_mod(n, p);
    if a == 0 {
        lemma_small_mod(0nat, p);
    }
    lemma_pow_positive(a as int, n);
    let pw = pow(a as int, n) as nat;
    assert(pw * fact(n) == fact(n) * pw) by (nonlinear_arith);
    assert(fact(n) * 1 == fact(n));
    lemma_mod_mul_cancel(p, fact(n), pw, 1);
    lemma_small_mod(1nat, p);
}

/// `b^(p−2)` reduced mod `p` is the multiplicative inverse of `b`: the fact
/// that justifies field division by exponentiation.
pub proof fn lemma_pow_inverse(b: nat, p: nat)
    requires
        is_prime(p),
        b % p != 0,
    ensures
        (b as int * (pow(b as int, (p - 2) as nat) % (p as int))) % (p as int) == 1,
{
    let pi = p as int;
    lemma_fermat_little(b, p);
    lemma_pow1(b as int);
    lemma_pow_adds(b as int, (p - 2) as nat, 1nat);
    assert(pow(b as int, (p - 1) as nat) == pow(b as int, (p - 2) as nat) * b as int);
    lemma_mul_mod_noop_right(b as int, pow(b as int, (p - 2) as nat), pi);
    assert(b as int * pow(b as int, (p - 2) as nat) == pow(b as int, (p - 2) as nat) * b as int)
        by (nonlinear_arith);
}

} // verus!
