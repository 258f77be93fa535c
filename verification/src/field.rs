//! Arithmetic in the prime field of a fixed order: every element is a residue
//! in `[0, ORDER)`, and each operation reduces its result back into that range.
use vstd::prelude::*;
use vstd::arithmetic::div_mod::lemma_add_mod_noop;
use vstd::arithmetic::div_mod::lemma_mod_add_multiples_vanish;
use vstd::arithmetic::div_mod::lemma_mod_bound;
use vstd::arithmetic::div_mod::lemma_mul_mod_noop_left;
use vstd::arithmetic::div_mod::lemma_mul_mod_noop_right;
use vstd::arithmetic::div_mod::lemma_small_mod;
use vstd::arithmetic::div_mod::lemma_sub_mod_noop;
use vstd::arithmetic::mul::lemma_mul_upper_bound;
use vstd::arithmetic::power::lemma_pow_mod_noop;
use vstd::arithmetic::power::lemma_pow_multiplies;
use vstd::arithmetic::power::lemma_pow0;
use vstd::arithmetic::power::lemma_square_is_pow2;
use vstd::arithmetic::power::pow;

use crate::fermat::lemma_fermat_little;
use crate::fermat::lemma_pow_inverse;
use crate::primality::is_prime;
use crate::Error;

verus! {

/// Modular exponentiation by squaring: `base ^ exponent mod modulo` in
/// `O(log exponent)` multiplications, each reduced mod `modulo`.
///
/// `modulo` must fit in 64 bits so that no intermediate product can overflow
/// the 128-bit arithmetic used by the loop.
pub fn mod_pow(base: u128, exponent: u128, modulo: u128) -> (r: u128)
    requires
        1 <= modulo <= u64::MAX as u128,
    ensures
        r as int == pow(base as int, exponent as nat) % (modulo as int),
        r < modulo,
{
    let mut res: u128 = 1 % modulo;
    let mut b: u128 = base % modulo;
    let mut e: u128 = exponent;
    proof {
        lemma_pow_mod_noop(base as int, exponent as nat, modulo as int);
        lemma_mul_mod_noop_left(1int, pow(b as int, e as nat), modulo as int);
    }
    while e > 0
        invariant
            1 <= modulo <= u64::MAX as u128,
            res < modulo,
            b < modulo,
            (res as int * pow(b as int, e as nat)) % (modulo as int) == pow(
                base as int,
                exponent as nat,
            ) % (modulo as int),
        decreases e,
    {
        proof {
            lemma_mul_upper_bound(res as int, modulo as int - 1, b as int, modulo as int - 1);
            lemma_mul_upper_bound(b as int, modulo as int - 1, b as int, modulo as int - 1);
            lemma_mul_upper_bound(
                modulo as int - 1,
                u64::MAX as int,
                modulo as int - 1,
                u64::MAX as int,
            );
        }
        let ghost res0 = res as int;
        let ghost b0 = b as int;
        let ghost e0 = e as nat;
        if e % 2 == 1 {
            res = (res * b) % modulo;
        }
        e = e / 2;
        b = (b * b) % modulo;
        proof {
            let m = modulo as int;
            // pow(b0 * b0, e0 / 2) accounts for all but the lowest bit of e0.
            reveal(pow);
            lemma_square_is_pow2(b0);
            lemma_pow_multiplies(b0, 2, e0 / 2);
            assert(pow(b0, 2 * (e0 / 2)) == pow(b0 * b0, e0 / 2));
            lemma_pow_mod_noop(b0 * b0, e0 / 2, m);
            lemma_mul_mod_noop_right(res as int, pow(b as int, e as nat), m);
            lemma_mul_mod_noop_right(res as int, pow(b0 * b0, e0 / 2), m);
            if e0 % 2 == 1 {
                assert(pow(b0, e0) == b0 * pow(b0, (e0 - 1) as nat));
                assert(2 * (e0 / 2) == (e0 - 1) as nat);
                lemma_mul_mod_noop_left(res0 * b0, pow(b0, (e0 - 1) as nat), m);
                assert((res0 * b0) * pow(b0, (e0 - 1) as nat) == res0 * (b0 * pow(
                    b0,
                    (e0 - 1) as nat,
                ))) by (nonlinear_arith);
            } else {
                assert(2 * (e0 / 2) == e0);
            }
        }
    }
    proof {
        lemma_pow0(b as int);
        lemma_small_mod(res as nat, modulo as nat);
    }
    res
}

/// The effective non-negative exponent used by `Field::pow`: a negative
/// exponent is mapped into `[0, order - 1)` by the order of the field's
/// multiplicative group, `order - 1`.
pub open spec fn pow_exponent(order: nat, e: int) -> nat
    recommends
        order >= 2,
{
    if e >= 0 {
        e as nat
    } else {
        (e % (order - 1)) as nat
    }
}

/// One residue class mod the prime `ORDER`, held as its canonical
/// representative: the invariant `wf` says the representative is reduced.
#[derive(Debug, Clone, Copy)]
pub struct Field<const ORDER: u64> {
    pub element: u64,
}

impl<const ORDER: u64> PartialEq for Field<ORDER> {
    /// Two elements are equal exactly when their canonical representatives
    /// are: both are already reduced, so no further reduction is needed.
    fn eq(&self, rhs: &Self) -> (r: bool)
        ensures
            r == (self.element == rhs.element),
    {
        self.element == rhs.element
    }
}

impl<const ORDER: u64> vstd::std_specs::cmp::PartialEqSpecImpl for Field<ORDER> {
    open spec fn obeys_eq_spec() -> bool {
        true
    }

    open spec fn eq_spec(&self, rhs: &Self) -> bool {
        self.element == rhs.element
    }
}

impl<const ORDER: u64> Eq for Field<ORDER> {

}

impl<const ORDER: u64> Field<ORDER> {
    /// The element is in canonical reduced form.
    pub open spec fn wf(self) -> bool {
        (self.element as int) < (ORDER as int)
    }

    /// Construct the residue class of any raw integer; the input is reduced
    /// mod `ORDER`, so every integer is acceptable.
    pub fn new(element: u64) -> (r: Self)
        requires
            ORDER >= 2,
        ensures
            r.wf(),
            r.element as int == (element as int) % (ORDER as int),
    {
        Field { element: element % ORDER }
    }

    /// Field addition: `(self + rhs) mod ORDER`.
    pub fn add(self, rhs: Self) -> (r: Self)
        requires
            ORDER >= 2,
            self.wf(),
            rhs.wf(),
        ensures
            r.wf(),
            r.element as int == (self.element + rhs.element) % (ORDER as int),
    {
        let s: u128 = self.element as u128 + rhs.element as u128;
        Field { element: (s % (ORDER as u128)) as u64 }
    }

    /// Field subtraction, well defined also when `self.element < rhs.element`:
    /// the result is normalised into `[0, ORDER)`.
    pub fn sub(self, rhs: Self) -> (r: Self)
        requires
            ORDER >= 2,
            self.wf(),
            rhs.wf(),
        ensures
            r.wf(),
            r.element as int == (self.element - rhs.element) % (ORDER as int),
    {
        let s: u128 = self.element as u128 + ORDER as u128 - rhs.element as u128;
        proof {
            lemma_mod_add_multiples_vanish(self.element as int - rhs.element as int, ORDER as int);
        }
        Field { element: (s % (ORDER as u128)) as u64 }
    }

    /// Field multiplication, performed in 128 bits so the product cannot
    /// overflow before the reduction.
    pub fn mul(self, rhs: Self) -> (r: Self)
        requires
            ORDER >= 2,
            self.wf(),
            rhs.wf(),
        ensures
            r.wf(),
            r.element as int == (self.element * rhs.element) % (ORDER as int),
    {
        proof {
            lemma_mul_upper_bound(
                self.element as int,
                u64::MAX as int,
                rhs.element as int,
                u64::MAX as int,
            );
        }
        let s: u128 = self.element as u128 * rhs.element as u128;
        Field { element: (s % (ORDER as u128)) as u64 }
    }

    /// Modular exponentiation. A negative exponent is interpreted through the
    /// order of the multiplicative group: it is mapped to the equivalent
    /// exponent mod `ORDER - 1` before exponentiating.
    pub fn pow(base: Self, exponent: i128) -> (r: Self)
        requires
            ORDER >= 2,
            base.wf(),
        ensures
            r.wf(),
            r.element as int == pow(base.element as int, pow_exponent(ORDER as nat, exponent as int))
                % (ORDER as int),
    {
        let mut e: i128 = exponent;
        while e < 0
            invariant
                ORDER >= 2,
                if exponent >= 0 {
                    e == exponent
                } else {
                    e < ORDER - 1 && (e as int) % (ORDER - 1) as int == (exponent as int) % (ORDER
                        - 1) as int
                },
            decreases (if e < 0 {
                0 - e as int
            } else {
                0int
            }),
        {
            proof {
                lemma_mod_add_multiples_vanish(e as int, (ORDER - 1) as int);
            }
            e = e + (ORDER - 1) as i128;
        }
        proof {
            if exponent < 0 {
                lemma_mod_bound(exponent as int, (ORDER - 1) as int);
                lemma_small_mod(e as nat, (ORDER - 1) as nat);
            }
            assert(e as nat == pow_exponent(ORDER as nat, exponent as int));
        }
        let r = mod_pow(base.element as u128, e as u128, ORDER as u128);
        Field { element: r as u64 }
    }

    /// Field division: multiplication by the divisor's modular inverse, which
    /// is `rhs ^ (ORDER - 2)` by Fermat's little theorem. The one failure is a
    /// divisor whose reduced value is the additive identity.
    pub fn div(self, rhs: Self) -> (r: Result<Self, Error>)
        requires
            ORDER >= 2,
            self.wf(),
            rhs.wf(),
        ensures
            rhs.element == 0 ==> r == Err::<Self, Error>(Error::DivisionByZero),
            rhs.element != 0 ==> (r matches Ok(q) && q.wf() && q.element as int == (self.element * (
            pow(rhs.element as int, (ORDER - 2) as nat) % (ORDER as int))) % (ORDER as int)),
    {
        if rhs.element % ORDER == 0 {
            proof {
                lemma_small_mod(rhs.element as nat, ORDER as nat);
            }
            return Err(Error::DivisionByZero);
        }
        proof {
            lemma_small_mod(rhs.element as nat, ORDER as nat);
            // The exponent -1 stands for ORDER - 2 in the multiplicative group.
            lemma_mod_add_multiples_vanish(-1int, (ORDER - 1) as int);
            lemma_small_mod((ORDER - 2) as nat, (ORDER - 1) as nat);
            assert(pow_exponent(ORDER as nat, -1int) == (ORDER - 2) as nat);
        }
        let inverse = Self::pow(rhs, -1);
        Ok(self.mul(inverse))
    }
}

impl<const ORDER: u64> Field<ORDER> {
    /// Adding an element and then subtracting it is the identity: composing
    /// the contracts of `add` and `sub` gives back the first operand.
    pub proof fn lemma_add_sub_cancel(a: Self, b: Self)
        requires
            ORDER >= 2,
            a.wf(),
            b.wf(),
        ensures
            ((a.element + b.element) % (ORDER as int) - b.element) % (ORDER as int)
                == a.element as int,
    {
        let p = ORDER as int;
        lemma_small_mod(a.element as nat, ORDER as nat);
        lemma_small_mod(b.element as nat, ORDER as nat);
        lemma_sub_mod_noop(a.element + b.element, b.element as int, p);
    }

    /// Field addition is commutative.
    pub proof fn lemma_add_commutative(a: Self, b: Self)
        requires
            ORDER >= 2,
        ensures
            (a.element + b.element) % (ORDER as int) == (b.element + a.element) % (ORDER as int),
    {
    }

    /// Field multiplication is commutative.
    pub proof fn lemma_mul_commutative(a: Self, b: Self)
        requires
            ORDER >= 2,
        ensures
            (a.element * b.element) % (ORDER as int) == (b.element * a.element) % (ORDER as int),
    {
        assert(a.element * b.element == b.element * a.element) by (nonlinear_arith);
    }

    /// Field addition is associative: reducing after each step or at the end
    /// gives the same residue.
    pub proof fn lemma_add_associative(a: Self, b: Self, c: Self)
        requires
            ORDER >= 2,
            a.wf(),
            b.wf(),
            c.wf(),
        ensures
            ((a.element + b.element) % (ORDER as int) + c.element) % (ORDER as int) == (a.element
                + (b.element + c.element) % (ORDER as int)) % (ORDER as int),
    {
        let p = ORDER as int;
        lemma_small_mod(a.element as nat, ORDER as nat);
        lemma_small_mod(c.element as nat, ORDER as nat);
        lemma_add_mod_noop(a.element + b.element, c.element as int, p);
        lemma_add_mod_noop(a.element as int, b.element + c.element, p);
    }

    /// Field multiplication is associative: reducing after each step or at
    /// the end gives the same residue.
    pub proof fn lemma_mul_associative(a: Self, b: Self, c: Self)
        requires
            ORDER >= 2,
        ensures
            ((a.element * b.element) % (ORDER as int) * c.element) % (ORDER as int) == (a.element
                * ((b.element * c.element) % (ORDER as int))) % (ORDER as int),
    {
        let p = ORDER as int;
        lemma_mul_mod_noop_left(a.element * b.element, c.element as int, p);
        lemma_mul_mod_noop_right(a.element as int, b.element * c.element, p);
        assert((a.element * b.element) * c.element == a.element * (b.element * c.element))
            by (nonlinear_arith);
    }

    /// Fermat's little theorem at the field's order: raising any nonzero
    /// element to `ORDER - 1`, as `pow` computes it, gives the multiplicative
    /// identity.
    pub proof fn lemma_pow_order_minus_one(b: Self)
        requires
            is_prime(ORDER as nat),
            b.wf(),
            b.element != 0,
        ensures
            pow(b.element as int, (ORDER - 1) as nat) % (ORDER as int) == 1,
    {
        lemma_small_mod(b.element as nat, ORDER as nat);
        lemma_fermat_little(b.element as nat, ORDER as nat);
    }

    /// Dividing by a nonzero element and then multiplying by it gives back
    /// the dividend: composing the contracts of `div` and `mul` is the
    /// identity.
    pub proof fn lemma_div_mul_cancel(a: Self, b: Self)
        requires
            is_prime(ORDER as nat),
            a.wf(),
            b.wf(),
            b.element != 0,
        ensures
            (((a.element * (pow(b.element as int, (ORDER - 2) as nat) % (ORDER as int))) % (
            ORDER as int)) * b.element) % (ORDER as int) == a.element as int,
    {
        let p = ORDER as int;
        let w = pow(b.element as int, (ORDER - 2) as nat) % p;
        lemma_small_mod(b.element as nat, ORDER as nat);
        lemma_pow_inverse(b.element as nat, ORDER as nat);
        assert((b.element * w) % p == 1);
        lemma_mul_mod_noop_left(a.element * w, b.element as int, p);
        assert((a.element * w) * b.element == a.element * (w * b.element)) by (nonlinear_arith);
        lemma_mul_mod_noop_right(a.element as int, w * b.element, p);
        assert(w * b.element == b.element * w) by (nonlinear_arith);
        lemma_small_mod(a.element as nat, ORDER as nat);
    }

    /// Raising a nonzero element to the exponent -1 and multiplying by the
    /// element gives the multiplicative identity: the negative exponent
    /// denotes the modular inverse.
    pub proof fn lemma_pow_neg_one_mul(b: Self)
        requires
            is_prime(ORDER as nat),
            b.wf(),
            b.element != 0,
        ensures
            ((pow(b.element as int, pow_exponent(ORDER as nat, -1)) % (ORDER as int)) * b.element)
                % (ORDER as int) == 1,
    {
        let p = ORDER as int;
        lemma_mod_add_multiples_vanish(-1int, (ORDER - 1) as int);
        lemma_small_mod((ORDER - 2) as nat, (ORDER - 1) as nat);
        assert(pow_exponent(ORDER as nat, -1int) == (ORDER - 2) as nat);
        let w = pow(b.element as int, (ORDER - 2) as nat) % p;
        lemma_small_mod(b.element as nat, ORDER as nat);
        lemma_pow_inverse(b.element as nat, ORDER as nat);
        assert(w * b.element == b.element * w) by (nonlinear_arith);
    }
}

} // verus!

