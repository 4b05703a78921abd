//! The cubic extension of the Mersenne31 field by `X^3 - 5`: evaluation
//! values and folding challenges live here. An element is a polynomial
//! `c0 + c1*X + c2*X^2` with Mersenne31 coefficients; contracts speak of it
//! through the integer-coefficient view [`EfV`].

use vstd::prelude::*;
use vstd::arithmetic::div_mod::{lemma_add_mod_noop, lemma_mod_bound, lemma_mul_mod_noop_right};
use vstd::arithmetic::mul::{lemma_mul_is_associative, lemma_mul_is_commutative,
    lemma_mul_is_distributive_add};

use crate::m31::{add_m, halve_m, lemma_addm_noop, lemma_canon_mod, lemma_mulm_noop, mul_m, pm,
    sub_m, M31};

verus! {

/// The integer-coefficient value of an extension element.
pub struct EfV {
    pub a: int,
    pub b: int,
    pub c: int,
}

/// All three coefficients are canonical representatives.
pub open spec fn ef_canon(x: EfV) -> bool {
    0 <= x.a < pm() && 0 <= x.b < pm() && 0 <= x.c < pm()
}

/// The zero element.
pub open spec fn ef_zero() -> EfV {
    EfV { a: 0, b: 0, c: 0 }
}

/// Coefficient-wise addition modulo `P`.
pub open spec fn ef_add_v(x: EfV, y: EfV) -> EfV {
    EfV { a: add_m(x.a, y.a), b: add_m(x.b, y.b), c: add_m(x.c, y.c) }
}

/// Coefficient-wise subtraction modulo `P`.
pub open spec fn ef_sub_v(x: EfV, y: EfV) -> EfV {
    EfV { a: sub_m(x.a, y.a), b: sub_m(x.b, y.b), c: sub_m(x.c, y.c) }
}

/// Polynomial multiplication modulo `X^3 - 5` and modulo `P`.
pub open spec fn ef_mul_v(x: EfV, y: EfV) -> EfV {
    EfV {
        a: (x.a * y.a + 5 * (x.b * y.c + x.c * y.b)) % pm(),
        b: (x.a * y.b + x.b * y.a + 5 * (x.c * y.c)) % pm(),
        c: (x.a * y.c + x.b * y.b + x.c * y.a) % pm(),
    }
}

/// Multiplication by a base-field scalar.
pub open spec fn ef_scale_v(t: int, x: EfV) -> EfV {
    EfV { a: mul_m(t, x.a), b: mul_m(t, x.b), c: mul_m(t, x.c) }
}

/// Coefficient-wise division by two.
pub open spec fn ef_halve_v(x: EfV) -> EfV {
    EfV { a: halve_m(x.a), b: halve_m(x.b), c: halve_m(x.c) }
}

/// Halving distributes over extension addition.
pub proof fn lemma_ef_halve_add(x: EfV, y: EfV)
    requires
        ef_canon(x),
        ef_canon(y),
    ensures
        ef_halve_v(ef_add_v(x, y)) == ef_add_v(ef_halve_v(x), ef_halve_v(y)),
{
    crate::m31::lemma_halve_add(x.a, y.a);
    crate::m31::lemma_halve_add(x.b, y.b);
    crate::m31::lemma_halve_add(x.c, y.c);
}

/// Swap a factor past the halving constant: `p * (i2 * q) == i2 * (p * q)`.
proof fn lemma_swap_half(p: int, q: int)
    ensures
        p * (1073741824 * q) == 1073741824 * (p * q),
{
    lemma_mul_is_associative(p, 1073741824, q);
    lemma_mul_is_commutative(p, 1073741824);
    lemma_mul_is_associative(1073741824, p, q);
}

/// Halving one factor halves the whole extension product.
pub proof fn lemma_ef_mul_halve(x: EfV, y: EfV)
    requires
        ef_canon(y),
    ensures
        ef_mul_v(x, ef_halve_v(y)) == ef_halve_v(ef_mul_v(x, y)),
{
    let i2: int = 1073741824;
    crate::m31::lemma_halve_as_mul(y.a);
    crate::m31::lemma_halve_as_mul(y.b);
    crate::m31::lemma_halve_as_mul(y.c);
    let h = ef_halve_v(y);
    // Strip the inner reductions out of every product.
    lemma_mul_mod_noop_right(x.a, i2 * y.a, pm());
    lemma_mul_mod_noop_right(x.a, i2 * y.b, pm());
    lemma_mul_mod_noop_right(x.a, i2 * y.c, pm());
    lemma_mul_mod_noop_right(x.b, i2 * y.a, pm());
    lemma_mul_mod_noop_right(x.b, i2 * y.b, pm());
    lemma_mul_mod_noop_right(x.b, i2 * y.c, pm());
    lemma_mul_mod_noop_right(x.c, i2 * y.a, pm());
    lemma_mul_mod_noop_right(x.c, i2 * y.b, pm());
    lemma_mul_mod_noop_right(x.c, i2 * y.c, pm());
    // First coefficient.
    assert((x.a * h.a + 5 * (x.b * h.c + x.c * h.b)) % pm() == halve_m(
        (x.a * y.a + 5 * (x.b * y.c + x.c * y.b)) % pm(),
    )) by {
        lemma_coeff_halve(x.a, y.a, x.b, y.c, x.c, y.b);
    };
    // Second coefficient.
    assert((x.a * h.b + x.b * h.a + 5 * (x.c * h.c)) % pm() == halve_m(
        (x.a * y.b + x.b * y.a + 5 * (x.c * y.c)) % pm(),
    )) by {
        lemma_coeff_halve_lin(x.a, y.b, x.b, y.a, x.c, y.c);
    };
    // Third coefficient.
    assert((x.a * h.c + x.b * h.b + x.c * h.a) % pm() == halve_m(
        (x.a * y.c + x.b * y.b + x.c * y.a) % pm(),
    )) by {
        lemma_coeff_halve_plain(x.a, y.c, x.b, y.b, x.c, y.a);
    };
}

/// `(p1*(q1/2) + 5*(p2*(q2/2) + p3*(q3/2))) == (p1*q1 + 5*(p2*q2 + p3*q3)) / 2`
/// modulo `P`, with each `qi/2` already reduced.
proof fn lemma_coeff_halve(p1: int, q1: int, p2: int, q2: int, p3: int, q3: int)
    requires
        0 <= q1 < pm(),
        0 <= q2 < pm(),
        0 <= q3 < pm(),
    ensures
        (p1 * halve_m(q1) + 5 * (p2 * halve_m(q2) + p3 * halve_m(q3))) % pm() == halve_m(
            (p1 * q1 + 5 * (p2 * q2 + p3 * q3)) % pm(),
        ),
{
    let i2: int = 1073741824;
    let s = p1 * q1 + 5 * (p2 * q2 + p3 * q3);
    crate::m31::lemma_halve_as_mul(q1);
    crate::m31::lemma_halve_as_mul(q2);
    crate::m31::lemma_halve_as_mul(q3);
    lemma_mod_bound(s, pm());
    crate::m31::lemma_halve_as_mul(s % pm());
    // halve(s % P) == (i2 * s) % P
    lemma_mul_mod_noop_right(i2, s, pm());
    // Left side: strip the reductions of the halved factors.
    lemma_mul_mod_noop_right(p1, i2 * q1, pm());
    lemma_mul_mod_noop_right(p2, i2 * q2, pm());
    lemma_mul_mod_noop_right(p3, i2 * q3, pm());
    assert((p1 * ((i2 * q1) % pm()) + 5 * (p2 * ((i2 * q2) % pm()) + p3 * ((i2 * q3) % pm())))
        % pm() == (p1 * (i2 * q1) + 5 * (p2 * (i2 * q2) + p3 * (i2 * q3))) % pm()) by {
        lemma_add_mod_noop(p1 * ((i2 * q1) % pm()), 5 * (p2 * ((i2 * q2) % pm()) + p3 * ((i2
            * q3) % pm())), pm());
        lemma_add_mod_noop(p2 * ((i2 * q2) % pm()), p3 * ((i2 * q3) % pm()), pm());
        lemma_add_mod_noop(p2 * (i2 * q2), p3 * (i2 * q3), pm());
        lemma_mul_mod_noop_right(5, p2 * ((i2 * q2) % pm()) + p3 * ((i2 * q3) % pm()), pm());
        lemma_mul_mod_noop_right(5, p2 * (i2 * q2) + p3 * (i2 * q3), pm());
        lemma_add_mod_noop(p1 * (i2 * q1), 5 * (p2 * (i2 * q2) + p3 * (i2 * q3)), pm());
    };
    // Ring identity: pull the halving constant out of the whole sum.
    lemma_swap_half(p1, q1);
    lemma_swap_half(p2, q2);
    lemma_swap_half(p3, q3);
    lemma_mul_is_distributive_add(i2, p2 * q2, p3 * q3);
    lemma_swap_half(5, p2 * q2 + p3 * q3);
    lemma_mul_is_distributive_add(i2, p1 * q1, 5 * (p2 * q2 + p3 * q3));
    assert(p1 * (i2 * q1) + 5 * (p2 * (i2 * q2) + p3 * (i2 * q3)) == i2 * s);
}

/// The same pulling-out of the halving constant, for the middle coefficient
/// shape `p1*q1 + p2*q2 + 5*(p3*q3)`.
proof fn lemma_coeff_halve_lin(p1: int, q1: int, p2: int, q2: int, p3: int, q3: int)
    requires
        0 <= q1 < pm(),
        0 <= q2 < pm(),
        0 <= q3 < pm(),
    ensures
        (p1 * halve_m(q1) + p2 * halve_m(q2) + 5 * (p3 * halve_m(q3))) % pm() == halve_m(
            (p1 * q1 + p2 * q2 + 5 * (p3 * q3)) % pm(),
        ),
{
    let i2: int = 1073741824;
    let s = p1 * q1 + p2 * q2 + 5 * (p3 * q3);
    crate::m31::lemma_halve_as_mul(q1);
    crate::m31::lemma_halve_as_mul(q2);
    crate::m31::lemma_halve_as_mul(q3);
    lemma_mod_bound(s, pm());
    crate::m31::lemma_halve_as_mul(s % pm());
    lemma_mul_mod_noop_right(i2, s, pm());
    lemma_mul_mod_noop_right(p1, i2 * q1, pm());
    lemma_mul_mod_noop_right(p2, i2 * q2, pm());
    lemma_mul_mod_noop_right(p3, i2 * q3, pm());
    assert((p1 * ((i2 * q1) % pm()) + p2 * ((i2 * q2) % pm()) + 5 * (p3 * ((i2 * q3) % pm())))
        % pm() == (p1 * (i2 * q1) + p2 * (i2 * q2) + 5 * (p3 * (i2 * q3))) % pm()) by {
        lemma_add_mod_noop(p1 * ((i2 * q1) % pm()) + p2 * ((i2 * q2) % pm()), 5 * (p3 * ((i2
            * q3) % pm())), pm());
        lemma_add_mod_noop(p1 * ((i2 * q1) % pm()), p2 * ((i2 * q2) % pm()), pm());
        lemma_add_mod_noop(p1 * (i2 * q1), p2 * (i2 * q2), pm());
        lemma_mul_mod_noop_right(5, p3 * ((i2 * q3) % pm()), pm());
        lemma_mul_mod_noop_right(5, p3 * (i2 * q3), pm());
        lemma_add_mod_noop(p1 * (i2 * q1) + p2 * (i2 * q2), 5 * (p3 * (i2 * q3)), pm());
    };
    lemma_swap_half(p1, q1);
    lemma_swap_half(p2, q2);
    lemma_swap_half(p3, q3);
    lemma_swap_half(5, p3 * q3);
    lemma_mul_is_distributive_add(i2, p1 * q1, p2 * q2);
    lemma_mul_is_distributive_add(i2, p1 * q1 + p2 * q2, 5 * (p3 * q3));
    assert(p1 * (i2 * q1) + p2 * (i2 * q2) + 5 * (p3 * (i2 * q3)) == i2 * s);
}

/// The same pulling-out of the halving constant, for the plain three-term
/// shape `p1*q1 + p2*q2 + p3*q3`.
proof fn lemma_coeff_halve_plain(p1: int, q1: int, p2: int, q2: int, p3: int, q3: int)
    requires
        0 <= q1 < pm(),
        0 <= q2 < pm(),
        0 <= q3 < pm(),
    ensures
        (p1 * halve_m(q1) + p2 * halve_m(q2) + p3 * halve_m(q3)) % pm() == halve_m(
            (p1 * q1 + p2 * q2 + p3 * q3) % pm(),
        ),
{
    let i2: int = 1073741824;
    let s = p1 * q1 + p2 * q2 + p3 * q3;
    crate::m31::lemma_halve_as_mul(q1);
    crate::m31::lemma_halve_as_mul(q2);
    crate::m31::lemma_halve_as_mul(q3);
    lemma_mod_bound(s, pm());
    crate::m31::lemma_halve_as_mul(s % pm());
    lemma_mul_mod_noop_right(i2, s, pm());
    lemma_mul_mod_noop_right(p1, i2 * q1, pm());
    lemma_mul_mod_noop_right(p2, i2 * q2, pm());
    lemma_mul_mod_noop_right(p3, i2 * q3, pm());
    assert((p1 * ((i2 * q1) % pm()) + p2 * ((i2 * q2) % pm()) + p3 * ((i2 * q3) % pm())) % pm()
        == (p1 * (i2 * q1) + p2 * (i2 * q2) + p3 * (i2 * q3)) % pm()) by {
        lemma_add_mod_noop(p1 * ((i2 * q1) % pm()) + p2 * ((i2 * q2) % pm()), p3 * ((i2 * q3)
            % pm()), pm());
        lemma_add_mod_noop(p1 * ((i2 * q1) % pm()), p2 * ((i2 * q2) % pm()), pm());
        lemma_add_mod_noop(p1 * (i2 * q1), p2 * (i2 * q2), pm());
        lemma_add_mod_noop(p1 * (i2 * q1) + p2 * (i2 * q2), p3 * (i2 * q3), pm());
    };
    lemma_swap_half(p1, q1);
    lemma_swap_half(p2, q2);
    lemma_swap_half(p3, q3);
    lemma_mul_is_distributive_add(i2, p1 * q1, p2 * q2);
    lemma_mul_is_distributive_add(i2, p1 * q1 + p2 * q2, p3 * q3);
    assert(p1 * (i2 * q1) + p2 * (i2 * q2) + p3 * (i2 * q3) == i2 * s);
}

/// An element of the cubic extension field.
#[derive(Clone, Copy, PartialEq, Eq, Structural, Debug)]
pub struct EF {
    c0: M31,
    c1: M31,
    c2: M31,
}

impl View for EF {
    type V = EfV;

    closed spec fn view(&self) -> EfV {
        EfV { a: self.c0.val(), b: self.c1.val(), c: self.c2.val() }
    }
}

impl EF {
    /// Build an element from its three coefficients.
    pub fn new(c0: M31, c1: M31, c2: M31) -> (r: Self)
        ensures
            r@ == (EfV { a: c0.val(), b: c1.val(), c: c2.val() }),
    {
        EF { c0, c1, c2 }
    }

    /// Embed a base-field element as a constant polynomial.
    pub fn from_base(x: M31) -> (r: Self)
        ensures
            r@ == (EfV { a: x.val(), b: 0, c: 0 }),
    {
        EF { c0: x, c1: M31::zero(), c2: M31::zero() }
    }

    /// The additive identity.
    pub fn zero() -> (r: Self)
        ensures
            r@ == ef_zero(),
    {
        EF { c0: M31::zero(), c1: M31::zero(), c2: M31::zero() }
    }

    /// Every element's view has canonical coefficients.
    pub fn canon(self) -> (r: bool)
        ensures
            r,
            ef_canon(self@),
    {
        proof {
            use_type_invariant(self.c0);
            use_type_invariant(self.c1);
            use_type_invariant(self.c2);
        }
        true
    }

    /// Extension addition.
    pub fn add(self, rhs: Self) -> (r: Self)
        ensures
            r@ == ef_add_v(self@, rhs@),
    {
        EF { c0: self.c0.add(rhs.c0), c1: self.c1.add(rhs.c1), c2: self.c2.add(rhs.c2) }
    }

    /// Extension subtraction.
    pub fn sub(self, rhs: Self) -> (r: Self)
        ensures
            r@ == ef_sub_v(self@, rhs@),
    {
        EF { c0: self.c0.sub(rhs.c0), c1: self.c1.sub(rhs.c1), c2: self.c2.sub(rhs.c2) }
    }

    /// Extension multiplication, reducing by `X^3 == 5`.
    pub fn mul(self, rhs: Self) -> (r: Self)
        ensures
            r@ == ef_mul_v(self@, rhs@),
    {
        proof {
            use_type_invariant(self.c0);
            use_type_invariant(self.c1);
            use_type_invariant(self.c2);
            use_type_invariant(rhs.c0);
            use_type_invariant(rhs.c1);
            use_type_invariant(rhs.c2);
        }
        let w = M31::new(5);
        let ghost xa = self.c0.val();
        let ghost xb = self.c1.val();
        let ghost xc = self.c2.val();
        let ghost ya = rhs.c0.val();
        let ghost yb = rhs.c1.val();
        let ghost yc = rhs.c2.val();
        let r0 = self.c0.mul(rhs.c0).add(w.mul(self.c1.mul(rhs.c2).add(self.c2.mul(rhs.c1))));
        let r1 = self.c0.mul(rhs.c1).add(self.c1.mul(rhs.c0)).add(w.mul(self.c2.mul(rhs.c2)));
        let r2 = self.c0.mul(rhs.c2).add(self.c1.mul(rhs.c1)).add(self.c2.mul(rhs.c0));
        proof {
            lemma_canon_mod(5);
            // coefficient of 1
            lemma_addm_noop(xb * yc, xc * yb);
            lemma_mulm_noop(5, xb * yc + xc * yb);
            lemma_addm_noop(xa * ya, 5 * (xb * yc + xc * yb));
            // coefficient of X
            lemma_addm_noop(xa * yb, xb * ya);
            lemma_mulm_noop(5, xc * yc);
            lemma_addm_noop(xa * yb + xb * ya, 5 * (xc * yc));
            // coefficient of X^2
            lemma_addm_noop(xa * yc, xb * yb);
            lemma_addm_noop(xa * yc + xb * yb, xc * ya);
        }
        EF { c0: r0, c1: r1, c2: r2 }
    }

    /// Multiplication by a base-field scalar.
    pub fn scale(self, t: M31) -> (r: Self)
        ensures
            r@ == ef_scale_v(t.val(), self@),
    {
        EF { c0: t.mul(self.c0), c1: t.mul(self.c1), c2: t.mul(self.c2) }
    }

    /// Coefficient-wise division by two.
    pub fn halve(self) -> (r: Self)
        ensures
            r@ == ef_halve_v(self@),
    {
        EF { c0: self.c0.halve(), c1: self.c1.halve(), c2: self.c2.halve() }
    }
}

} // verus!
