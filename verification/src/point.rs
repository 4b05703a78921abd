//! Points of the circle group over Mersenne31: pairs `(x, y)` multiplied by
//! the complex rule `(x1*x2 - y1*y2, x1*y2 + y1*x2)`, together with the
//! canonical two-adic generators of its cyclic subgroups.

use vstd::prelude::*;
use vstd::arithmetic::div_mod::{
    lemma_mod_bound, lemma_mul_mod_noop_left, lemma_mul_mod_noop_right, lemma_add_mod_noop,
    lemma_sub_mod_noop,
};
use vstd::arithmetic::mul::{lemma_mul_basics, lemma_mul_is_associative, lemma_mul_is_commutative,
    lemma_mul_is_distributive_add, lemma_mul_is_distributive_add_other_way,
    lemma_mul_is_distributive_sub, lemma_mul_is_distributive_sub_other_way};

use crate::m31::{lemma_addm_noop, lemma_canon_mod, lemma_subm_noop, pm, M31};

verus! {

/// The integer-coordinate value of a circle point.
pub struct PtV {
    pub x: int,
    pub y: int,
}

/// Both coordinates are canonical representatives.
pub open spec fn pt_canon(p: PtV) -> bool {
    0 <= p.x < pm() && 0 <= p.y < pm()
}

/// The group identity.
pub open spec fn pt_one() -> PtV {
    PtV { x: 1, y: 0 }
}

/// The circle group law, modulo `P`.
pub open spec fn pt_mul_v(p: PtV, q: PtV) -> PtV {
    PtV { x: (p.x * q.x - p.y * q.y) % pm(), y: (p.x * q.y + p.y * q.x) % pm() }
}

/// Repeated multiplication: `p^k`.
pub open spec fn pt_pow_v(p: PtV, k: nat) -> PtV
    decreases k,
{
    if k == 0 {
        pt_one()
    } else {
        pt_mul_v(pt_pow_v(p, (k - 1) as nat), p)
    }
}

/// `n`-fold squaring: `p^(2^n)`.
pub open spec fn pt_sq_iter(p: PtV, n: nat) -> PtV
    decreases n,
{
    if n == 0 {
        p
    } else {
        let q = pt_sq_iter(p, (n - 1) as nat);
        pt_mul_v(q, q)
    }
}

/// The generator of the full order-`2^31` circle group over Mersenne31.
pub open spec fn g31_v() -> PtV {
    PtV { x: 311014874, y: 1584694829 }
}

/// The canonical generator of the order-`2^bits` subgroup, obtained from the
/// full generator by `31 - bits` squarings.
pub open spec fn gen_v(bits: nat) -> PtV {
    pt_sq_iter(g31_v(), (31 - bits) as nat)
}

/// A product of points has canonical coordinates.
pub proof fn lemma_pt_mul_canon(p: PtV, q: PtV)
    ensures
        pt_canon(pt_mul_v(p, q)),
{
    lemma_mod_bound(p.x * q.x - p.y * q.y, pm());
    lemma_mod_bound(p.x * q.y + p.y * q.x, pm());
}

/// A power of a point has canonical coordinates.
pub proof fn lemma_pt_pow_canon(p: PtV, k: nat)
    ensures
        pt_canon(pt_pow_v(p, k)),
    decreases k,
{
    if k == 0 {
    } else {
        lemma_pt_pow_canon(p, (k - 1) as nat);
        lemma_pt_mul_canon(pt_pow_v(p, (k - 1) as nat), p);
    }
}

/// An iterated square of a canonical point has canonical coordinates.
pub proof fn lemma_pt_sq_iter_canon(p: PtV, n: nat)
    requires
        pt_canon(p),
    ensures
        pt_canon(pt_sq_iter(p, n)),
    decreases n,
{
    if n > 0 {
        lemma_pt_sq_iter_canon(p, (n - 1) as nat);
        lemma_pt_mul_canon(pt_sq_iter(p, (n - 1) as nat), pt_sq_iter(p, (n - 1) as nat));
    }
}

/// Every two-adic generator has canonical coordinates.
pub proof fn lemma_gen_canon(bits: nat)
    ensures
        pt_canon(gen_v(bits)),
{
    lemma_pt_sq_iter_canon(g31_v(), (31 - bits) as nat);
}

/// The group law is commutative.
pub proof fn lemma_pt_mul_comm(p: PtV, q: PtV)
    ensures
        pt_mul_v(p, q) == pt_mul_v(q, p),
{
    lemma_mul_is_commutative(p.x, q.x);
    lemma_mul_is_commutative(p.y, q.y);
    lemma_mul_is_commutative(p.x, q.y);
    lemma_mul_is_commutative(p.y, q.x);
}

/// The identity is neutral on canonical points.
pub proof fn lemma_pt_mul_one(p: PtV)
    requires
        pt_canon(p),
    ensures
        pt_mul_v(p, pt_one()) == p,
        pt_mul_v(pt_one(), p) == p,
{
    lemma_mul_basics(p.x);
    lemma_mul_basics(p.y);
    lemma_canon_mod(p.x);
    lemma_canon_mod(p.y);
    lemma_pt_mul_comm(p, pt_one());
}

/// Reducing an unreduced left operand first does not change the product.
proof fn lemma_pt_mul_reduce_left(a: int, b: int, r: PtV)
    ensures
        pt_mul_v(PtV { x: a % pm(), y: b % pm() }, r) == (PtV {
            x: (a * r.x - b * r.y) % pm(),
            y: (a * r.y + b * r.x) % pm(),
        }),
{
    lemma_mul_mod_noop_left(a, r.x, pm());
    lemma_mul_mod_noop_left(b, r.y, pm());
    lemma_sub_mod_noop(a * r.x, b * r.y, pm());
    lemma_mul_mod_noop_left(a, r.y, pm());
    lemma_mul_mod_noop_left(b, r.x, pm());
    lemma_add_mod_noop(a * r.y, b * r.x, pm());
}

/// Reducing an unreduced right operand first does not change the product.
proof fn lemma_pt_mul_reduce_right(p: PtV, c: int, d: int)
    ensures
        pt_mul_v(p, PtV { x: c % pm(), y: d % pm() }) == (PtV {
            x: (p.x * c - p.y * d) % pm(),
            y: (p.x * d + p.y * c) % pm(),
        }),
{
    lemma_mul_mod_noop_right(p.x, c, pm());
    lemma_mul_mod_noop_right(p.y, d, pm());
    lemma_sub_mod_noop(p.x * c, p.y * d, pm());
    lemma_mul_mod_noop_right(p.x, d, pm());
    lemma_mul_mod_noop_right(p.y, c, pm());
    lemma_add_mod_noop(p.x * d, p.y * c, pm());
}

/// The group law is associative.
pub proof fn lemma_pt_mul_assoc(p: PtV, q: PtV, r: PtV)
    ensures
        pt_mul_v(pt_mul_v(p, q), r) == pt_mul_v(p, pt_mul_v(q, r)),
{
    let a = p.x * q.x - p.y * q.y;
    let b = p.x * q.y + p.y * q.x;
    let c = q.x * r.x - q.y * r.y;
    let d = q.x * r.y + q.y * r.x;
    lemma_pt_mul_reduce_left(a, b, r);
    lemma_pt_mul_reduce_right(p, c, d);
    // Expand both sides of each coordinate into the same four monomials.
    lemma_mul_is_distributive_sub_other_way(r.x, p.x * q.x, p.y * q.y);
    lemma_mul_is_distributive_sub_other_way(r.y, p.x * q.x, p.y * q.y);
    lemma_mul_is_distributive_add_other_way(r.x, p.x * q.y, p.y * q.x);
    lemma_mul_is_distributive_add_other_way(r.y, p.x * q.y, p.y * q.x);
    lemma_mul_is_distributive_sub(p.x, q.x * r.x, q.y * r.y);
    lemma_mul_is_distributive_sub(p.y, q.x * r.x, q.y * r.y);
    lemma_mul_is_distributive_add(p.x, q.x * r.y, q.y * r.x);
    lemma_mul_is_distributive_add(p.y, q.x * r.y, q.y * r.x);
    lemma_mul_is_associative(p.x, q.x, r.x);
    lemma_mul_is_associative(p.x, q.x, r.y);
    lemma_mul_is_associative(p.x, q.y, r.x);
    lemma_mul_is_associative(p.x, q.y, r.y);
    lemma_mul_is_associative(p.y, q.x, r.x);
    lemma_mul_is_associative(p.y, q.x, r.y);
    lemma_mul_is_associative(p.y, q.y, r.x);
    lemma_mul_is_associative(p.y, q.y, r.y);
    assert(a * r.x - b * r.y == p.x * c - p.y * d);
    assert(a * r.y + b * r.x == p.x * d + p.y * c);
}

/// A first power is the point itself.
pub proof fn lemma_pt_pow_one(p: PtV)
    requires
        pt_canon(p),
    ensures
        pt_pow_v(p, 1) == p,
{
    assert(pt_pow_v(p, 0) == pt_one());
    assert(pt_pow_v(p, 1) == pt_mul_v(pt_pow_v(p, 0), p));
    lemma_pt_mul_one(p);
}

/// Powers add: `p^(a + b) == p^a * p^b`.
pub proof fn lemma_pt_pow_add(p: PtV, a: nat, b: nat)
    ensures
        pt_pow_v(p, a + b) == pt_mul_v(pt_pow_v(p, a), pt_pow_v(p, b)),
    decreases b,
{
    if b == 0 {
        lemma_pt_pow_canon(p, a);
        lemma_pt_mul_one(pt_pow_v(p, a));
    } else {
        lemma_pt_pow_add(p, a, (b - 1) as nat);
        assert(pt_pow_v(p, (a + b - 1) as nat) == pt_mul_v(pt_pow_v(p, a), pt_pow_v(p, (b - 1) as nat)));
        lemma_pt_mul_assoc(pt_pow_v(p, a), pt_pow_v(p, (b - 1) as nat), p);
    }
}

/// Powers of a square are even powers: `(p * p)^k == p^(2k)`.
pub proof fn lemma_pt_pow_double(p: PtV, k: nat)
    requires
        pt_canon(p),
    ensures
        pt_pow_v(pt_mul_v(p, p), k) == pt_pow_v(p, 2 * k),
    decreases k,
{
    if k > 0 {
        lemma_pt_pow_double(p, (k - 1) as nat);
        lemma_pt_pow_add(p, (2 * k - 2) as nat, 1);
        lemma_pt_pow_one(p);
        lemma_pt_pow_add(p, (2 * k - 1) as nat, 1);
        assert(pt_pow_v(pt_mul_v(p, p), k) == pt_mul_v(
            pt_pow_v(pt_mul_v(p, p), (k - 1) as nat),
            pt_mul_v(p, p),
        ));
        lemma_pt_mul_assoc(pt_pow_v(p, (2 * k - 2) as nat), p, p);
    }
}

/// A point of the circle over Mersenne31, with a real and imaginary part.
#[derive(Clone, Copy, PartialEq, Eq, Structural, Debug)]
pub struct Point {
    re: M31,
    im: M31,
}

impl View for Point {
    type V = PtV;

    closed spec fn view(&self) -> PtV {
        PtV { x: self.re.val(), y: self.im.val() }
    }
}

impl Point {
    /// Build a point from its two coordinates.
    pub fn new(re: M31, im: M31) -> (r: Self)
        ensures
            r@ == (PtV { x: re.val(), y: im.val() }),
    {
        Point { re, im }
    }

    /// The group identity.
    pub fn one() -> (r: Self)
        ensures
            r@ == pt_one(),
    {
        Point { re: M31::one(), im: M31::zero() }
    }

    /// The real coordinate.
    pub fn real_part(self) -> (r: M31)
        ensures
            r.val() == self@.x,
    {
        self.re
    }

    /// The imaginary coordinate.
    pub fn imag_part(self) -> (r: M31)
        ensures
            r.val() == self@.y,
    {
        self.im
    }

    /// The circle group law.
    pub fn mul(self, rhs: Self) -> (r: Self)
        ensures
            r@ == pt_mul_v(self@, rhs@),
    {
        proof {
            use_type_invariant(self.re);
            use_type_invariant(self.im);
            use_type_invariant(rhs.re);
            use_type_invariant(rhs.im);
            lemma_subm_noop(self.re.val() * rhs.re.val(), self.im.val() * rhs.im.val());
            lemma_addm_noop(self.re.val() * rhs.im.val(), self.im.val() * rhs.re.val());
        }
        let re = self.re.mul(rhs.re).sub(self.im.mul(rhs.im));
        let im = self.re.mul(rhs.im).add(self.im.mul(rhs.re));
        Point { re, im }
    }

    /// Raise to a machine-integer power by square-and-multiply.
    pub fn exp_u64(self, e: u64) -> (r: Self)
        ensures
            r@ == pt_pow_v(self@, e as nat),
    {
        let mut acc = Point::one();
        let mut base = self;
        let mut rem: u64 = e;
        proof {
            use_type_invariant(self.re);
            use_type_invariant(self.im);
            lemma_pt_pow_canon(self@, e as nat);
            lemma_pt_mul_one(pt_pow_v(self@, e as nat));
        }
        while rem > 0
            invariant
                pt_canon(acc@),
                pt_canon(base@),
                pt_mul_v(acc@, pt_pow_v(base@, rem as nat)) == pt_pow_v(self@, e as nat),
            decreases rem,
        {
            let ghost acc0 = acc@;
            let ghost base0 = base@;
            let ghost rem0 = rem as nat;
            if rem % 2 == 1 {
                acc = acc.mul(base);
            }
            base = base.mul(base);
            rem = rem / 2;
            proof {
                let h = rem as nat;
                lemma_pt_pow_double(base0, h);
                if rem0 % 2 == 1 {
                    assert(rem0 == 2 * h + 1);
                    // acc * base^(2h+1) == (acc * base) * (base^2)^h
                    assert(pt_pow_v(base0, 2 * h + 1) == pt_mul_v(
                        pt_pow_v(base0, 2 * h),
                        base0,
                    )) by {
                        lemma_pt_pow_add(base0, 2 * h, 1);
                        lemma_pt_pow_one(base0);
                    };
                    lemma_pt_mul_comm(pt_pow_v(base0, 2 * h), base0);
                    lemma_pt_mul_assoc(acc0, base0, pt_pow_v(base0, 2 * h));
                    lemma_pt_mul_canon(acc0, base0);
                } else {
                    assert(rem0 == 2 * h);
                }
                lemma_pt_mul_canon(base0, base0);
            }
        }
        proof {
            lemma_pt_mul_one(acc@);
        }
        acc
    }

    /// The canonical generator of the order-`2^bits` circle subgroup.
    pub fn circle_two_adic_generator(bits: usize) -> (g: Self)
        requires
            bits <= 31,
        ensures
            g@ == gen_v(bits as nat),
            pt_canon(g@),
    {
        let mut p = Point::new(M31::new(311014874), M31::new(1584694829));
        let n = 31 - bits;
        let mut j: usize = 0;
        while j < n
            invariant
                j <= n,
                n == 31 - bits,
                p@ == pt_sq_iter(g31_v(), j as nat),
            decreases n - j,
        {
            p = p.mul(p);
            j += 1;
        }
        proof {
            use_type_invariant(p.re);
            use_type_invariant(p.im);
        }
        p
    }
}

} // verus!
