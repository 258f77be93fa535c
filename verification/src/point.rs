//! Points on the short-Weierstrass curve `y² = x³ + A·x + B` over the prime
//! field of order `ORDER`, with the chord-and-tangent group law. Every
//! arithmetic step is delegated to `Field`; coordinates are never raw machine
//! integers.
use vstd::prelude::*;
use vstd::arithmetic::div_mod::lemma_add_mod_noop;
use vstd::arithmetic::div_mod::lemma_mod_add_multiples_vanish;
use vstd::arithmetic::div_mod::lemma_mod_bound;
use vstd::arithmetic::div_mod::lemma_mod_equivalence;
use vstd::arithmetic::div_mod::lemma_mod_twice;
use vstd::arithmetic::div_mod::lemma_mul_mod_noop;
use vstd::arithmetic::div_mod::lemma_mul_mod_noop_left;
use vstd::arithmetic::div_mod::lemma_mul_mod_noop_right;
use vstd::arithmetic::div_mod::lemma_small_mod;
use vstd::arithmetic::div_mod::lemma_sub_mod_noop;
use vstd::arithmetic::power::pow;

use crate::fermat::lemma_pow_inverse;
use crate::field::Field;
use crate::primality::is_prime;
use crate::primality::lemma_mod_mul_cancel;
use crate::primality::lemma_mod_mul_nonzero;
use crate::primality::lemma_prime_divides_factor;
use crate::Error;

verus! {

/// The curve equation `y² = x³ + a·x + b`, read mod `p`, for reduced curve
/// coefficients `a` and `b`.
pub open spec fn on_curve(p: int, a: int, b: int, x: int, y: int) -> bool {
    (y * y) % p == (x * x * x + a * x + b) % p
}

/// A point of the curve with coefficients `A` and `B` (given as raw residues,
/// reduced mod `ORDER` wherever they are used): either the identity element
/// `Infinity`, or a finite coordinate pair that satisfies the curve equation.
#[derive(Debug, Clone, Copy)]
pub enum Point<const A: u64, const B: u64, const ORDER: u64> {
    Infinity,
    Finite { x: Field<ORDER>, y: Field<ORDER> },
}

impl<const A: u64, const B: u64, const ORDER: u64> PartialEq for Point<A, B, ORDER> {
    /// Structural equality: two points are equal when both are the identity,
    /// or both are finite with equal coordinates; points of different
    /// variants are never equal.
    fn eq(&self, rhs: &Self) -> (r: bool)
        ensures
            r == (*self == *rhs),
    {
        match (self, rhs) {
            (Point::Infinity, Point::Infinity) => true,
            (Point::Infinity, Point::Finite { .. }) => false,
            (Point::Finite { .. }, Point::Infinity) => false,
            (Point::Finite { x: x1, y: y1 }, Point::Finite { x: x2, y: y2 }) => x1.element
                == x2.element && y1.element == y2.element,
        }
    }
}

impl<const A: u64, const B: u64, const ORDER: u64> vstd::std_specs::cmp::PartialEqSpecImpl for Point<A, B, ORDER> {
    open spec fn obeys_eq_spec() -> bool {
        true
    }

    open spec fn eq_spec(&self, rhs: &Self) -> bool {
        *self == *rhs
    }
}

impl<const A: u64, const B: u64, const ORDER: u64> Eq for Point<A, B, ORDER> {

}

impl<const A: u64, const B: u64, const ORDER: u64> Point<A, B, ORDER> {
    /// Valid points are the identity, or reduced coordinates on the curve.
    pub open spec fn wf(self) -> bool {
        match self {
            Point::Infinity => true,
            Point::Finite { x, y } => x.wf() && y.wf() && on_curve(
                ORDER as int,
                A as int % (ORDER as int),
                B as int % (ORDER as int),
                x.element as int,
                y.element as int,
            ),
        }
    }

    /// The group identity.
    pub fn infinity() -> (r: Self)
        ensures
            r == Point::<A, B, ORDER>::Infinity,
            r.wf(),
    {
        Point::Infinity
    }

    /// The validating constructor: accepts exactly the coordinate pairs that
    /// satisfy the curve equation, and rejects every other pair with the
    /// not-on-curve condition.
    pub fn new(x: Field<ORDER>, y: Field<ORDER>) -> (r: Result<Self, Error>)
        requires
            ORDER >= 2,
            x.wf(),
            y.wf(),
        ensures
            on_curve(
                ORDER as int,
                A as int % (ORDER as int),
                B as int % (ORDER as int),
                x.element as int,
                y.element as int,
            ) ==> r == Ok::<Self, Error>(Point::Finite { x, y }),
            !on_curve(
                ORDER as int,
                A as int % (ORDER as int),
                B as int % (ORDER as int),
                x.element as int,
                y.element as int,
            ) ==> r == Err::<Self, Error>(Error::PointNotOnCurve),
            r matches Ok(pt) ==> pt.wf(),
    {
        let p = ORDER;
        let lhs = y.mul(y);
        let coeff_a = Field::<ORDER>::new(A);
        let coeff_b = Field::<ORDER>::new(B);
        let cubic = x.mul(x).mul(x);
        let rhs = cubic.add(coeff_a.mul(x)).add(coeff_b);
        proof {
            let pi = ORDER as int;
            let xe = x.element as int;
            let a = A as int % pi;
            let b = B as int % pi;
            // collapse the staged reductions into one on the full polynomial
            lemma_mul_mod_noop_left(xe * xe, xe, pi);
            lemma_add_mod_noop(xe * xe * xe, a * xe, pi);
            lemma_mod_twice(a * xe, pi);
            lemma_add_mod_noop(xe * xe * xe + a * xe, b, pi);
            lemma_mod_twice(B as int, pi);
            assert(rhs.element as int == (xe * xe * xe + a * xe + b) % pi);
        }
        if lhs.element == rhs.element {
            Ok(Point::Finite { x, y })
        } else {
            Err(Error::PointNotOnCurve)
        }
    }

    /// What the outcome of constructing a finite point from the reduced
    /// coordinates `x3`, `y3` is: the point when it lies on the curve, the
    /// not-on-curve failure otherwise.
    pub open spec fn finite_or_error(x3: int, y3: int) -> Result<Self, Error> {
        if on_curve(
            ORDER as int,
            A as int % (ORDER as int),
            B as int % (ORDER as int),
            x3,
            y3,
        ) {
            Ok(Point::Finite { x: Field { element: x3 as u64 }, y: Field { element: y3 as u64 } })
        } else {
            Err(Error::PointNotOnCurve)
        }
    }

    /// The group law as a case analysis over the two operands: the identity
    /// cases, the vertical cases that give `Infinity`, the tangent (doubling)
    /// case and the chord case, with the same field formulas that `add`
    /// computes.
    pub open spec fn add_spec(self, other: Self) -> Result<Self, Error> {
        let p = ORDER as int;
        match (self, other) {
            (Point::Infinity, Point::Infinity) => Ok(self),
            (Point::Infinity, Point::Finite { .. }) => Ok(other),
            (Point::Finite { .. }, Point::Infinity) => Ok(self),
            (Point::Finite { x: x1, y: y1 }, Point::Finite { x: x2, y: y2 }) => {
                if x1.element == x2.element && y1.element == y2.element {
                    if y1.element == 0 {
                        Ok(Point::Infinity)
                    } else {
                        // tangent-line slope (3·x1² + A) / (2·y1)
                        let num = (((3int % p) * ((x1.element * x1.element) % p)) % p + (A as int
                            % p)) % p;
                        let den = ((2int % p) * y1.element) % p;
                        if den == 0 {
                            Err(Error::DivisionByZero)
                        } else {
                            let s = (num * (pow(den, (ORDER - 2) as nat) % p)) % p;
                            let x3 = ((s * s) % p - ((2int % p) * x1.element) % p) % p;
                            let y3 = ((s * ((x1.element - x3) % p)) % p - y1.element) % p;
                            Self::finite_or_error(x3, y3)
                        }
                    }
                } else if x1.element == x2.element {
                    Ok(Point::Infinity)
                } else {
                    // chord slope (y2 − y1) / (x2 − x1)
                    let num = (y2.element - y1.element) % p;
                    let den = (x2.element - x1.element) % p;
                    if den == 0 {
                        Err(Error::DivisionByZero)
                    } else {
                        let s = (num * (pow(den, (ORDER - 2) as nat) % p)) % p;
                        let x3 = (((s * s) % p - x1.element) % p - x2.element) % p;
                        let y3 = ((s * ((x1.element - x3) % p)) % p - y1.element) % p;
                        Self::finite_or_error(x3, y3)
                    }
                }
            },
        }
    }

    /// Point addition. The identity absorbs nothing, vertical pairs meet at
    /// infinity, and the two slope cases land back on the curve through the
    /// validating constructor; the computed result is exactly `add_spec`.
    pub fn add(self, other: Self) -> (r: Result<Self, Error>)
        requires
            ORDER >= 2,
            self.wf(),
            other.wf(),
        ensures
            r == self.add_spec(other),
            r matches Ok(pt) ==> pt.wf(),
    {
        match (self, other) {
            (Point::Infinity, Point::Infinity) => Ok(self),
            (Point::Infinity, Point::Finite { .. }) => Ok(other),
            (Point::Finite { .. }, Point::Infinity) => Ok(self),
            (Point::Finite { x: x1, y: y1 }, Point::Finite { x: x2, y: y2 }) => {
                if x1.element == x2.element && y1.element == y2.element {
                    if y1.element == 0 {
                        Ok(Point::Infinity)
                    } else {
                        let two = Field::<ORDER>::new(2);
                        let three = Field::<ORDER>::new(3);
                        let coeff_a = Field::<ORDER>::new(A);
                        let num = three.mul(x1.mul(x1)).add(coeff_a);
                        let den = two.mul(y1);
                        match num.div(den) {
                            Err(e) => Err(e),
                            Ok(s) => {
                                let x3 = s.mul(s).sub(two.mul(x1));
                                let y3 = s.mul(x1.sub(x3)).sub(y1);
                                Self::new(x3, y3)
                            },
                        }
                    }
                } else if x1.element == x2.element {
                    Ok(Point::Infinity)
                } else {
                    let num = y2.sub(y1);
                    let den = x2.sub(x1);
                    match num.div(den) {
                        Err(e) => Err(e),
                        Ok(s) => {
                            let x3 = s.mul(s).sub(x1).sub(x2);
                            let y3 = s.mul(x1.sub(x3)).sub(y1);
                            Self::new(x3, y3)
                        },
                    }
                }
            },
        }
    }
}

/// The difference of two distinct reduced residues is nonzero mod `p`.
proof fn lemma_small_diff_mod_nonzero(p: int, a: int, b: int)
    requires
        p >= 2,
        0 <= a < p,
        0 <= b < p,
        a != b,
    ensures
        0 <= (a - b) % p < p,
        (a - b) % p != 0,
{
    lemma_mod_bound(a - b, p);
    if a > b {
        lemma_small_mod((a - b) as nat, p as nat);
    } else {
        lemma_mod_add_multiples_vanish(a - b, p);
        lemma_small_mod((a - b + p) as nat, p as nat);
    }
}

/// The computed slope `s = u·d^(p−2) % p` satisfies `s·d ≡ u (mod p)`:
/// dividing by a nonzero denominator is exact, by Fermat's little theorem.
proof fn lemma_slope_mul_denominator(p: nat, u: int, d: int, s: int)
    requires
        is_prime(p),
        0 <= u < p,
        0 < d < p,
        s == (u * (pow(d, (p - 2) as nat) % (p as int))) % (p as int),
    ensures
        (s * d) % (p as int) == u,
{
    let pi = p as int;
    let w = pow(d, (p - 2) as nat) % pi;
    lemma_small_mod(d as nat, p);
    assert((d as nat) as int == d);
    lemma_pow_inverse(d as nat, p);
    assert((d * w) % pi == 1);
    lemma_mul_mod_noop_left(u * w, d, pi);
    assert((u * w) * d == u * (w * d)) by (nonlinear_arith);
    lemma_mul_mod_noop_right(u, w * d, pi);
    assert(w * d == d * w) by (nonlinear_arith);
    lemma_small_mod(u as nat, p);
}

proof fn lemma_gap_factor(a: int, b: int, s: int, x1: int, y1: int, t: int, u: int)
    ensures
        ({
            let lt = s * (t - x1) + y1;
            let lu = s * (u - x1) + y1;
            (t * t * t + a * t + b - lt * lt) - (u * u * u + a * u + b - lu * lu) == (t - u) * (t
                * t + t * u + u * u + a - s * (lt + lu))
        }),
{
    let lt = s * (t - x1) + y1;
    let lu = s * (u - x1) + y1;
    let w = t - u;
    assert(lt - lu == s * w) by (nonlinear_arith)
        requires
            lt == s * (t - x1) + y1,
            lu == s * (u - x1) + y1,
            w == t - u,
    ;
    assert(lt * lt - lu * lu == (lt - lu) * (lt + lu)) by (nonlinear_arith);
    assert(t * t * t - u * u * u + a * t - a * u == w * (t * t + t * u + u * u + a))
        by (nonlinear_arith)
        requires
            w == t - u,
    ;
    assert((s * w) * (lt + lu) == w * (s * (lt + lu))) by (nonlinear_arith);
    assert(w * (t * t + t * u + u * u + a) - w * (s * (lt + lu)) == w * ((t * t + t * u + u * u
        + a) - s * (lt + lu))) by (nonlinear_arith);
}

proof fn lemma_chord_on_curve(p: nat, a: int, b: int, x1: int, y1: int, x2: int, y2: int, s: int)
    requires
        is_prime(p),
        (y1 * y1) % (p as int) == (x1 * x1 * x1 + a * x1 + b) % (p as int),
        (y2 * y2) % (p as int) == (x2 * x2 * x2 + a * x2 + b) % (p as int),
        (s * (x2 - x1)) % (p as int) == (y2 - y1) % (p as int),
        (x2 - x1) % (p as int) != 0,
    ensures
        ({
            let xx = s * s - x1 - x2;
            let yy = s * (x1 - xx) - y1;
            (yy * yy) % (p as int) == (xx * xx * xx + a * xx + b) % (p as int)
        }),
{
    let pi = p as int;
    let xx = s * s - x1 - x2;
    let yy = s * (x1 - xx) - y1;
    let l1 = s * (x1 - x1) + y1;
    let l2 = s * (x2 - x1) + y1;
    let lx = s * (xx - x1) + y1;
    let e1 = x1 * x1 * x1 + a * x1 + b;
    let e2 = x2 * x2 * x2 + a * x2 + b;
    let ex = xx * xx * xx + a * xx + b;
    let g1 = e1 - l1 * l1;
    let g2 = e2 - l2 * l2;
    let gx = ex - lx * lx;
    let h21 = x2 * x2 + x2 * x1 + x1 * x1 + a - s * (l2 + l1);
    let hx1 = xx * xx + xx * x1 + x1 * x1 + a - s * (lx + l1);
    lemma_gap_factor(a, b, s, x1, y1, x2, x1);
    assert(g2 - g1 == (x2 - x1) * h21);
    lemma_gap_factor(a, b, s, x1, y1, xx, x1);
    assert(gx - g1 == (xx - x1) * hx1);
    // the slope relation makes the three x-values sum to s², so both
    // difference quotients agree
    assert(lx - l2 == s * (xx - x2)) by (nonlinear_arith)
        requires
            lx == s * (xx - x1) + y1,
            l2 == s * (x2 - x1) + y1,
    ;
    assert(hx1 - h21 == (xx - x2) * (xx + x2 + x1 - s * s)) by (nonlinear_arith)
        requires
            hx1 == xx * xx + xx * x1 + x1 * x1 + a - s * (lx + l1),
            h21 == x2 * x2 + x2 * x1 + x1 * x1 + a - s * (l2 + l1),
            lx - l2 == s * (xx - x2),
    ;
    assert((xx - x2) * (xx + x2 + x1 - s * s) == 0) by (nonlinear_arith)
        requires
            xx == s * s - x1 - x2,
    ;
    assert(hx1 == h21);
    // both curve gaps vanish mod p
    assert(l1 == y1);
    lemma_mod_equivalence(e1, y1 * y1, pi);
    assert(g1 % pi == 0);
    lemma_mod_equivalence(s * (x2 - x1), y2 - y1, pi);
    assert((l2 - y2) % pi == 0);
    lemma_mod_equivalence(l2, y2, pi);
    lemma_mul_mod_noop(l2, l2, pi);
    lemma_mul_mod_noop(y2, y2, pi);
    assert((l2 * l2) % pi == (y2 * y2) % pi);
    lemma_mod_equivalence(e2, l2 * l2, pi);
    assert(g2 % pi == 0);
    // so the unit x2 - x1 times h21 vanishes, hence h21 itself does
    lemma_sub_mod_noop(g2, g1, pi);
    lemma_small_mod(0nat, p);
    assert(((x2 - x1) * h21) % pi == 0);
    let dd = (x2 - x1) % pi;
    let hh = h21 % pi;
    lemma_mod_bound(x2 - x1, pi);
    lemma_mod_bound(h21, pi);
    lemma_mul_mod_noop(x2 - x1, h21, pi);
    lemma_small_mod(dd as nat, p);
    lemma_small_mod(hh as nat, p);
    lemma_prime_divides_factor(p, dd as nat, hh as nat);
    assert(hh == 0);
    // the third gap is the first plus a multiple of h21
    assert(((xx - x1) * h21) % pi == 0) by {
        lemma_mul_mod_noop_right(xx - x1, h21, pi);
        assert((xx - x1) * 0 == 0) by (nonlinear_arith);
    };
    assert(gx == g1 + (xx - x1) * h21);
    lemma_add_mod_noop(g1, (xx - x1) * h21, pi);
    assert(gx % pi == 0);
    // the new y-coordinate is the negated line value
    assert(s * (x1 - xx) == -(s * (xx - x1))) by (nonlinear_arith);
    assert(yy == -lx);
    assert(yy * yy == lx * lx) by (nonlinear_arith)
        requires
            yy == -lx,
    ;
    lemma_mod_equivalence(ex, lx * lx, pi);
}

proof fn lemma_double_on_curve(p: nat, a: int, b: int, x1: int, y1: int, s: int)
    requires
        is_prime(p),
        (y1 * y1) % (p as int) == (x1 * x1 * x1 + a * x1 + b) % (p as int),
        (s * (2 * y1)) % (p as int) == (3 * x1 * x1 + a) % (p as int),
    ensures
        ({
            let xx = s * s - 2 * x1;
            let yy = s * (x1 - xx) - y1;
            (yy * yy) % (p as int) == (xx * xx * xx + a * xx + b) % (p as int)
        }),
{
    let pi = p as int;
    let xx = s * s - 2 * x1;
    let yy = s * (x1 - xx) - y1;
    let l1 = s * (x1 - x1) + y1;
    let lx = s * (xx - x1) + y1;
    let e1 = x1 * x1 * x1 + a * x1 + b;
    let ex = xx * xx * xx + a * xx + b;
    let g1 = e1 - l1 * l1;
    let gx = ex - lx * lx;
    let hx1 = xx * xx + xx * x1 + x1 * x1 + a - s * (lx + l1);
    let rr = 3 * x1 * x1 + a - s * (2 * y1);
    lemma_gap_factor(a, b, s, x1, y1, xx, x1);
    assert(gx - g1 == (xx - x1) * hx1);
    // with the tangent slope, the difference quotient is the tangent residue
    assert(l1 == y1);
    assert(s * lx == s * (s * (xx - x1)) + s * y1) by (nonlinear_arith)
        requires
            lx == s * (xx - x1) + y1,
    ;
    assert(hx1 - rr == (xx - x1) * (xx + 2 * x1 - s * s)) by (nonlinear_arith)
        requires
            hx1 == xx * xx + xx * x1 + x1 * x1 + a - s * (lx + l1),
            rr == 3 * x1 * x1 + a - s * (2 * y1),
            l1 == y1,
            s * lx == s * (s * (xx - x1)) + s * y1,
    ;
    assert((xx - x1) * (xx + 2 * x1 - s * s) == 0) by (nonlinear_arith)
        requires
            xx == s * s - 2 * x1,
    ;
    assert(hx1 == rr);
    // the tangent residue and the first gap vanish mod p
    lemma_mod_equivalence(3 * x1 * x1 + a, s * (2 * y1), pi);
    assert(rr % pi == 0);
    lemma_mod_equivalence(e1, y1 * y1, pi);
    assert(g1 % pi == 0);
    assert(((xx - x1) * hx1) % pi == 0) by {
        lemma_mul_mod_noop_right(xx - x1, hx1, pi);
        assert((xx - x1) * 0 == 0) by (nonlinear_arith);
        lemma_small_mod(0nat, p);
    };
    assert(gx == g1 + (xx - x1) * hx1);
    lemma_add_mod_noop(g1, (xx - x1) * hx1, pi);
    lemma_small_mod(0nat, p);
    assert(gx % pi == 0);
    assert(s * (x1 - xx) == -(s * (xx - x1))) by (nonlinear_arith);
    assert(yy == -lx);
    assert(yy * yy == lx * lx) by (nonlinear_arith)
        requires
            yy == -lx,
    ;
    lemma_mod_equivalence(ex, lx * lx, pi);
}

/// Replacing a coordinate by its residue changes neither side of the curve
/// equation mod `p`.
proof fn lemma_curve_terms_congruent(p: int, a: int, b: int, x: int, y: int, xr: int, yr: int)
    requires
        p >= 2,
        xr % p == x % p,
        yr % p == y % p,
    ensures
        (yr * yr) % p == (y * y) % p,
        (xr * xr * xr + a * xr + b) % p == (x * x * x + a * x + b) % p,
{
    lemma_mul_mod_noop(yr, yr, p);
    lemma_mul_mod_noop(y, y, p);
    lemma_mul_mod_noop(xr, xr, p);
    lemma_mul_mod_noop(x, x, p);
    lemma_mul_mod_noop(xr * xr, xr, p);
    lemma_mul_mod_noop(x * x, x, p);
    assert((xr * xr * xr) % p == (x * x * x) % p);
    lemma_mul_mod_noop_right(a, xr, p);
    lemma_mul_mod_noop_right(a, x, p);
    lemma_add_mod_noop(xr * xr * xr, a * xr, p);
    lemma_add_mod_noop(x * x * x, a * x, p);
    lemma_add_mod_noop(xr * xr * xr + a * xr, b, p);
    lemma_add_mod_noop(x * x * x + a * x, b, p);
}

impl<const A: u64, const B: u64, const ORDER: u64> Point<A, B, ORDER> {
    /// Over a prime field of odd order the group law is total on valid
    /// points: it never reports a division by zero nor an off-curve result —
    /// the chord and tangent formulas always land back on the curve.
    pub proof fn lemma_add_closed(p1: Self, p2: Self)
        requires
            is_prime(ORDER as nat),
            ORDER != 2,
            p1.wf(),
            p2.wf(),
        ensures
            p1.add_spec(p2) is Ok,
            p1.add_spec(p2) matches Ok(pt) ==> pt.wf(),
    {
        let pi = ORDER as int;
        let a = A as int % pi;
        let b = B as int % pi;
        if let (Point::Finite { x: x1, y: y1 }, Point::Finite { x: x2, y: y2 }) = (p1, p2) {
            let x1e = x1.element as int;
            let y1e = y1.element as int;
            let x2e = x2.element as int;
            let y2e = y2.element as int;
            lemma_small_mod(x1.element as nat, ORDER as nat);
            lemma_small_mod(x2.element as nat, ORDER as nat);
            lemma_small_mod(y1.element as nat, ORDER as nat);
            lemma_small_mod(2nat, ORDER as nat);
            lemma_small_mod(0nat, ORDER as nat);
            if x1.element == x2.element && y1.element == y2.element && y1.element != 0 {
                // tangent case: the denominator 2·y1 is a unit mod an odd prime
                let num = (((3int % pi) * ((x1e * x1e) % pi)) % pi + a) % pi;
                let den = ((2int % pi) * y1e) % pi;
                lemma_mul_mod_noop_left(2int, y1e, pi);
                lemma_mod_mul_nonzero(ORDER as nat, 2nat, y1.element as nat);
                assert(den != 0);
                let s = (num * (pow(den, (ORDER - 2) as nat) % pi)) % pi;
                lemma_mod_bound(num * (pow(den, (ORDER - 2) as nat) % pi), pi);
                lemma_mod_bound((3int % pi) * ((x1e * x1e) % pi) % pi + a, pi);
                lemma_mod_bound(2 * y1e, pi);
                lemma_slope_mul_denominator(ORDER as nat, num, den, s);
                // the slope relation in the raw form the tangent lemma expects
                assert((s * (2 * y1e)) % pi == (3 * x1e * x1e + a) % pi) by {
                    lemma_mul_mod_noop_right(s, 2 * y1e, pi);
                    lemma_mul_mod_noop(3int, x1e * x1e, pi);
                    lemma_mod_twice(A as int, pi);
                    lemma_add_mod_noop(3 * (x1e * x1e), a, pi);
                    assert(3 * (x1e * x1e) == 3 * x1e * x1e) by (nonlinear_arith);
                };
                lemma_double_on_curve(ORDER as nat, a, b, x1e, y1e, s);
                let xx = s * s - 2 * x1e;
                let yy = s * (x1e - xx) - y1e;
                let x3 = ((s * s) % pi - ((2int % pi) * x1e) % pi) % pi;
                let y3 = ((s * ((x1e - x3) % pi)) % pi - y1e) % pi;
                assert(x3 == xx % pi) by {
                    lemma_mul_mod_noop_left(2int, x1e, pi);
                    lemma_sub_mod_noop(s * s, 2 * x1e, pi);
                };
                assert(y3 == yy % pi) by {
                    lemma_mod_twice(xx, pi);
                    lemma_mod_equivalence(xx, x3, pi);
                    lemma_mod_equivalence(x1e - x3, x1e - xx, pi);
                    lemma_mul_mod_noop_right(s, x1e - x3, pi);
                    lemma_mul_mod_noop_right(s, x1e - xx, pi);
                    lemma_sub_mod_noop(s * (x1e - x3), y1e, pi);
                    lemma_sub_mod_noop(s * (x1e - xx), y1e, pi);
                };
                lemma_mod_twice(xx, pi);
                lemma_mod_twice(yy, pi);
                lemma_curve_terms_congruent(pi, a, b, xx, yy, x3, y3);
                assert(on_curve(pi, a, b, x3, y3));
                lemma_mod_bound(xx, pi);
                lemma_mod_bound(yy, pi);
            } else if x1.element != x2.element {
                // chord case: the denominator x2 - x1 is a unit
                lemma_small_diff_mod_nonzero(pi, x2e, x1e);
                let num = (y2e - y1e) % pi;
                let den = (x2e - x1e) % pi;
                let s = (num * (pow(den, (ORDER - 2) as nat) % pi)) % pi;
                lemma_mod_bound(num * (pow(den, (ORDER - 2) as nat) % pi), pi);
                lemma_mod_bound(y2e - y1e, pi);
                lemma_slope_mul_denominator(ORDER as nat, num, den, s);
                // the slope relation in the raw form the chord lemma expects
                assert((s * (x2e - x1e)) % pi == (y2e - y1e) % pi) by {
                    lemma_mul_mod_noop_right(s, x2e - x1e, pi);
                    lemma_mod_twice(y2e - y1e, pi);
                };
                lemma_chord_on_curve(ORDER as nat, a, b, x1e, y1e, x2e, y2e, s);
                let xx = s * s - x1e - x2e;
                let yy = s * (x1e - xx) - y1e;
                let x3 = (((s * s) % pi - x1e) % pi - x2e) % pi;
                let y3 = ((s * ((x1e - x3) % pi)) % pi - y1e) % pi;
                assert(x3 == xx % pi) by {
                    lemma_sub_mod_noop(s * s, x1e, pi);
                    lemma_sub_mod_noop(s * s - x1e, x2e, pi);
                };
                assert(y3 == yy % pi) by {
                    lemma_mod_twice(xx, pi);
                    lemma_mod_equivalence(xx, x3, pi);
                    lemma_mod_equivalence(x1e - x3, x1e - xx, pi);
                    lemma_mul_mod_noop_right(s, x1e - x3, pi);
                    lemma_mul_mod_noop_right(s, x1e - xx, pi);
                    lemma_sub_mod_noop(s * (x1e - x3), y1e, pi);
                    lemma_sub_mod_noop(s * (x1e - xx), y1e, pi);
                };
                lemma_mod_twice(xx, pi);
                lemma_mod_twice(yy, pi);
                lemma_curve_terms_congruent(pi, a, b, xx, yy, x3, y3);
                assert(on_curve(pi, a, b, x3, y3));
                lemma_mod_bound(xx, pi);
                lemma_mod_bound(yy, pi);
            }
        }
    }

    /// The point at infinity is a two-sided identity of the group law.
    pub proof fn lemma_add_infinity_identity(pt: Self)
        ensures
            pt.add_spec(Point::Infinity) == Ok::<Self, Error>(pt),
            Point::<A, B, ORDER>::Infinity.add_spec(pt) == Ok::<Self, Error>(pt),
    {
    }

    /// The group law is commutative: swapping the operands changes neither
    /// the resulting point nor the failure condition. In the chord case both
    /// slopes multiply the common denominator to the common numerator, so by
    /// cancellation they are the same residue.
    pub proof fn lemma_add_commutative(p1: Self, p2: Self)
        requires
            is_prime(ORDER as nat),
            p1.wf(),
            p2.wf(),
        ensures
            p1.add_spec(p2) == p2.add_spec(p1),
    {
        let pi = ORDER as int;
        if let (Point::Finite { x: x1, y: y1 }, Point::Finite { x: x2, y: y2 }) = (p1, p2) {
            let x1e = x1.element as int;
            let y1e = y1.element as int;
            let x2e = x2.element as int;
            let y2e = y2.element as int;
            if x1.element != x2.element {
                let u = (y2e - y1e) % pi;
                let d = (x2e - x1e) % pi;
                let u2 = (y1e - y2e) % pi;
                let d2 = (x1e - x2e) % pi;
                lemma_small_diff_mod_nonzero(pi, x2e, x1e);
                lemma_small_diff_mod_nonzero(pi, x1e, x2e);
                lemma_mod_bound(y2e - y1e, pi);
                lemma_mod_bound(y1e - y2e, pi);
                lemma_small_mod(0nat, ORDER as nat);
                lemma_add_mod_noop(x2e - x1e, x1e - x2e, pi);
                assert((d + d2) % pi == 0);
                lemma_add_mod_noop(y2e - y1e, y1e - y2e, pi);
                assert((u + u2) % pi == 0);
                let s = (u * (pow(d, (ORDER - 2) as nat) % pi)) % pi;
                let s2 = (u2 * (pow(d2, (ORDER - 2) as nat) % pi)) % pi;
                lemma_mod_bound(u * (pow(d, (ORDER - 2) as nat) % pi), pi);
                lemma_mod_bound(u2 * (pow(d2, (ORDER - 2) as nat) % pi), pi);
                lemma_slope_mul_denominator(ORDER as nat, u, d, s);
                lemma_slope_mul_denominator(ORDER as nat, u2, d2, s2);
                lemma_small_mod(u2 as nat, ORDER as nat);
                // the reversed slope multiplies d to u as well
                assert((s2 * d) % pi == u) by {
                    lemma_mod_equivalence(d, -d2, pi);
                    lemma_mul_mod_noop_right(s2, d, pi);
                    lemma_mul_mod_noop_right(s2, -d2, pi);
                    assert(s2 * (-d2) == -(s2 * d2)) by (nonlinear_arith);
                    lemma_mod_equivalence(u2, s2 * d2, pi);
                    lemma_mod_equivalence(-(s2 * d2), -u2, pi);
                    lemma_mod_equivalence(u, -u2, pi);
                    lemma_small_mod(u as nat, ORDER as nat);
                };
                // … so by cancellation the slopes are the same residue
                assert(s == s2) by {
                    assert(d * s == s * d) by (nonlinear_arith);
                    assert(d * s2 == s2 * d) by (nonlinear_arith);
                    lemma_small_mod(d as nat, ORDER as nat);
                    lemma_mod_mul_cancel(ORDER as nat, d as nat, s as nat, s2 as nat);
                    lemma_small_mod(s as nat, ORDER as nat);
                    lemma_small_mod(s2 as nat, ORDER as nat);
                };
                let m = s * s;
                let x3 = ((m % pi - x1e) % pi - x2e) % pi;
                let x3r = ((m % pi - x2e) % pi - x1e) % pi;
                lemma_small_mod(x1.element as nat, ORDER as nat);
                lemma_small_mod(x2.element as nat, ORDER as nat);
                lemma_small_mod(y1.element as nat, ORDER as nat);
                lemma_small_mod(y2.element as nat, ORDER as nat);
                assert(x3 == x3r) by {
                    lemma_sub_mod_noop(m, x1e, pi);
                    lemma_sub_mod_noop(m - x1e, x2e, pi);
                    lemma_sub_mod_noop(m, x2e, pi);
                    lemma_sub_mod_noop(m - x2e, x1e, pi);
                };
                // the two y-coordinate formulas are congruent
                let y3 = ((s * ((x1e - x3) % pi)) % pi - y1e) % pi;
                let y3r = ((s * ((x2e - x3) % pi)) % pi - y2e) % pi;
                assert(y3 == y3r) by {
                    lemma_mul_mod_noop_right(s, x1e - x3, pi);
                    lemma_sub_mod_noop(s * (x1e - x3), y1e, pi);
                    lemma_mul_mod_noop_right(s, x2e - x3, pi);
                    lemma_sub_mod_noop(s * (x2e - x3), y2e, pi);
                    assert((s * (x1e - x3) - y1e) - (s * (x2e - x3) - y2e) == s * (x1e - x2e) + (
                    y2e - y1e)) by (nonlinear_arith);
                    lemma_mul_mod_noop_right(s, x1e - x2e, pi);
                    assert((s * (x1e - x2e)) % pi == u2);
                    lemma_add_mod_noop(s * (x1e - x2e), y2e - y1e, pi);
                    assert((s * (x1e - x2e) + (y2e - y1e)) % pi == 0);
                    lemma_mod_equivalence(s * (x1e - x3) - y1e, s * (x2e - x3) - y2e, pi);
                };
            }
        }
    }
}

} // verus!
