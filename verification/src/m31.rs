//! The Mersenne31 prime field: integers modulo `P = 2^31 - 1`, held in
//! canonical form. Contracts speak of the integer value of an element via
//! [`M31::val`], and of the field operations via the spec functions
//! [`add_m`], [`sub_m`], [`mul_m`], [`halve_m`] and [`inv_m`].

use vstd::prelude::*;
use vstd::arithmetic::div_mod::{
    lemma_add_mod_noop, lemma_mod_bound, lemma_mod_multiples_vanish, lemma_mul_mod_noop_general,
    lemma_mul_mod_noop_right, lemma_small_mod, lemma_sub_mod_noop,
    lemma_mod_sub_multiples_vanish,
};
use vstd::arithmetic::mul::{
    lemma_mul_is_associative, lemma_mul_is_commutative, lemma_mul_is_distributive_add,
    lemma_mul_upper_bound,
};

use p3_field::PrimeField32;
use p3_mersenne_31::Mersenne31;

verus! {

/// The Mersenne prime `2^31 - 1`.
pub const P: u32 = 0x7FFF_FFFF;

/// `P` as a mathematical integer, for use in specifications.
pub open spec fn pm() -> int {
    0x7FFF_FFFFint
}

/// Addition modulo `P`.
pub open spec fn add_m(a: int, b: int) -> int {
    (a + b) % pm()
}

/// Subtraction modulo `P`.
pub open spec fn sub_m(a: int, b: int) -> int {
    (a - b) % pm()
}

/// Multiplication modulo `P`.
pub open spec fn mul_m(a: int, b: int) -> int {
    (a * b) % pm()
}

/// Division by two modulo `P`, for a canonical representative: the unique
/// `r` in `[0, P)` with `2 * r == a (mod P)`.
pub open spec fn halve_m(a: int) -> int {
    if a % 2 == 0 {
        a / 2
    } else {
        (a + pm()) / 2
    }
}

/// `y` is the canonical multiplicative inverse of `x` modulo `P`.
pub open spec fn is_inv_pair(x: int, y: int) -> bool {
    0 <= y < pm() && (x * y) % pm() == 1
}

/// The canonical multiplicative inverse of `x` modulo `P`, or `0` where
/// none exists (that is, where `x == 0 (mod P)`).
pub open spec fn inv_m(x: int) -> int {
    if exists|y: int| is_inv_pair(x, y) {
        choose|y: int| is_inv_pair(x, y)
    } else {
        0
    }
}

/// The inverse modulo a prime is unique among canonical representatives.
pub proof fn lemma_inv_unique(x: int, y1: int, y2: int)
    requires
        is_inv_pair(x, y1),
        is_inv_pair(x, y2),
    ensures
        y1 == y2,
{
    // y1 == y1 * (x * y2) == (y1 * x) * y2 == y2 (mod P)
    lemma_mul_is_associative(y1, x, y2);
    lemma_mul_is_commutative(y1, x);
    lemma_mul_mod_noop_general(y1 * x, y2, pm());
    lemma_mul_mod_noop_general(x, y2, pm());
    lemma_mul_is_commutative(y1, x * y2);
    assert((y1 * (x * y2)) % pm() == y1 % pm()) by {
        lemma_mul_mod_noop_general(y1, x * y2, pm());
        lemma_small_mod(1nat, pm() as nat);
        lemma_small_mod(y1 as nat, pm() as nat);
    };
    lemma_small_mod(y1 as nat, pm() as nat);
    lemma_small_mod(y2 as nat, pm() as nat);
    assert(((y1 * x) * y2) % pm() == y2) by {
        lemma_mul_mod_noop_general(y1 * x, y2, pm());
        lemma_small_mod(1nat, pm() as nat);
        lemma_small_mod(y2 as nat, pm() as nat);
    };
}

/// A witness that multiplies with `x` to one pins down `inv_m(x)`.
pub proof fn lemma_inv_witness(x: int, y: int)
    requires
        is_inv_pair(x, y),
    ensures
        inv_m(x) == y,
{
    let w = choose|z: int| is_inv_pair(x, z);
    lemma_inv_unique(x, w, y);
}

/// Zero has no inverse, so `inv_m` sends it to zero.
pub proof fn lemma_inv_of_zero()
    ensures
        inv_m(0) == 0,
{
    assert forall|y: int| !is_inv_pair(0, y) by {
        assert(0 * y == 0);
        lemma_small_mod(0nat, pm() as nat);
    };
}

/// An element of the Mersenne31 field, kept in canonical form `[0, P)`.
#[derive(Clone, Copy, PartialEq, Eq, Structural, Debug)]
pub struct M31 {
    v: u32,
}

impl M31 {
    /// Canonical representatives only.
    #[verifier::type_invariant]
    pub open spec fn wf(self) -> bool {
        0 <= self.val() < pm()
    }

    /// The integer value of this element, in `[0, P)`.
    pub closed spec fn val(self) -> int {
        self.v as int
    }

    /// Build an element from any `u32`, reducing modulo `P`.
    pub fn new(x: u32) -> (r: Self)
        ensures
            r.val() == x as int % pm(),
    {
        M31 { v: x % P }
    }

    /// The additive identity.
    pub fn zero() -> (r: Self)
        ensures
            r.val() == 0,
    {
        M31 { v: 0 }
    }

    /// The multiplicative identity.
    pub fn one() -> (r: Self)
        ensures
            r.val() == 1,
    {
        M31 { v: 1 }
    }

    /// The canonical representative as a machine integer.
    pub fn value(self) -> (r: u32)
        ensures
            r as int == self.val(),
    {
        self.v
    }

    /// Whether this element is zero.
    pub fn is_zero(self) -> (r: bool)
        ensures
            r <==> self.val() == 0,
    {
        self.v == 0
    }

    /// Field addition.
    pub fn add(self, rhs: Self) -> (r: Self)
        ensures
            r.val() == add_m(self.val(), rhs.val()),
    {
        proof {
            use_type_invariant(self);
            use_type_invariant(rhs);
        }
        let s: u32 = self.v + rhs.v;
        let out: u32 = if s >= P {
            s - P
        } else {
            s
        };
        proof {
            if s >= P {
                lemma_mod_sub_multiples_vanish(s as int, pm());
                lemma_small_mod((s - P) as nat, pm() as nat);
            } else {
                lemma_small_mod(s as nat, pm() as nat);
            }
        }
        M31 { v: out }
    }

    /// Field subtraction.
    pub fn sub(self, rhs: Self) -> (r: Self)
        ensures
            r.val() == sub_m(self.val(), rhs.val()),
    {
        proof {
            use_type_invariant(self);
            use_type_invariant(rhs);
        }
        let out: u32 = if self.v >= rhs.v {
            self.v - rhs.v
        } else {
            self.v + P - rhs.v
        };
        proof {
            let d = self.val() - rhs.val();
            if self.v >= rhs.v {
                lemma_small_mod(d as nat, pm() as nat);
            } else {
                lemma_mod_sub_multiples_vanish(d + pm(), pm());
                lemma_small_mod((d + pm()) as nat, pm() as nat);
                assert((d + pm()) % pm() == d % pm());
            }
        }
        M31 { v: out }
    }

    /// Field multiplication.
    pub fn mul(self, rhs: Self) -> (r: Self)
        ensures
            r.val() == mul_m(self.val(), rhs.val()),
    {
        proof {
            use_type_invariant(self);
            use_type_invariant(rhs);
            assert((self.v as int) * (rhs.v as int) < 4611686018427387904) by (nonlinear_arith)
                requires
                    0 <= self.v < 2147483648,
                    0 <= rhs.v < 2147483648;
        }
        let prod: u64 = (self.v as u64) * (rhs.v as u64);
        let out: u32 = (prod % (P as u64)) as u32;
        proof {
            lemma_mod_bound(prod as int, pm());
        }
        M31 { v: out }
    }

    /// Division by two: the unique element that doubles back to `self`.
    pub fn halve(self) -> (r: Self)
        ensures
            r.val() == halve_m(self.val()),
    {
        proof {
            use_type_invariant(self);
        }
        let out: u32 = if self.v % 2 == 0 {
            self.v / 2
        } else {
            (self.v + P) / 2
        };
        M31 { v: out }
    }
}

/// Relies on `p3_field::batch_multiplicative_inverse` over
/// `p3_mersenne_31::Mersenne31`: given nonzero field elements it returns,
/// via Montgomery's trick, the multiplicative inverse of each, and
/// `PrimeField32::as_canonical_u32` yields the representative in `[0, P)`.
#[verifier::external_body]
fn batch_inverse_raw(xs: &Vec<M31>) -> (r: Vec<M31>)
    requires
        forall|i: int| 0 <= i < xs@.len() ==> (#[trigger] xs@[i]).val() != 0,
    ensures
        r@.len() == xs@.len(),
        forall|i: int|
            0 <= i < r@.len() ==> is_inv_pair(xs@[i].val(), (#[trigger] r@[i]).val()),
{
    let elems: Vec<Mersenne31> = xs.iter().map(|m| Mersenne31::new(m.v)).collect();
    let invs = p3_field::batch_multiplicative_inverse(&elems);
    invs.iter().map(|e| M31 { v: e.as_canonical_u32() }).collect()
}

/// The canonical inverse of every element of `xs`, with zero mapped to
/// zero. All inversions share a single batched pass when no zero occurs.
pub fn batch_inverse_or_zero(xs: &Vec<M31>) -> (r: Vec<M31>)
    ensures
        r@.len() == xs@.len(),
        forall|i: int|
            0 <= i < r@.len() ==> (#[trigger] r@[i]).val() == inv_m(xs@[i].val()),
{
    let n = xs.len();
    let mut any_zero = false;
    let mut j: usize = 0;
    while j < n
        invariant
            n == xs@.len(),
            !any_zero ==> forall|i: int| 0 <= i < j ==> (#[trigger] xs@[i]).val() != 0,
        decreases n - j,
    {
        if xs[j].is_zero() {
            any_zero = true;
        }
        j += 1;
    }
    if !any_zero {
        let r = batch_inverse_raw(xs);
        proof {
            assert forall|i: int| 0 <= i < r@.len() implies (#[trigger] r@[i]).val()
                == inv_m(xs@[i].val()) by {
                lemma_inv_witness(xs@[i].val(), r@[i].val());
            };
        }
        r
    } else {
        let mut out: Vec<M31> = Vec::new();
        let mut k: usize = 0;
        while k < n
            invariant
                n == xs@.len(),
                out@.len() == k,
                k <= n,
                forall|i: int|
                    0 <= i < k ==> (#[trigger] out@[i]).val() == inv_m(xs@[i].val()),
            decreases n - k,
        {
            out.push(inverse_or_zero(xs[k]));
            k += 1;
        }
        out
    }
}

/// The canonical inverse of one element, with zero mapped to zero.
pub fn inverse_or_zero(x: M31) -> (r: M31)
    ensures
        r.val() == inv_m(x.val()),
{
    if x.is_zero() {
        proof {
            lemma_inv_of_zero();
        }
        M31::zero()
    } else {
        let mut arg: Vec<M31> = Vec::new();
        arg.push(x);
        let inv = batch_inverse_raw(&arg);
        proof {
            lemma_inv_witness(x.val(), inv@[0].val());
        }
        inv[0]
    }
}

// Bridging facts used by the extension field and circle point modules.

/// Reducing the addends first does not change a sum modulo `P`.
pub proof fn lemma_addm_noop(a: int, b: int)
    ensures
        add_m(a % pm(), b % pm()) == (a + b) % pm(),
{
    lemma_add_mod_noop(a, b, pm());
}

/// Reducing the operands first does not change a difference modulo `P`.
pub proof fn lemma_subm_noop(a: int, b: int)
    ensures
        sub_m(a % pm(), b % pm()) == (a - b) % pm(),
{
    lemma_sub_mod_noop(a, b, pm());
}

/// Reducing the factors first does not change a product modulo `P`.
pub proof fn lemma_mulm_noop(a: int, b: int)
    ensures
        mul_m(a % pm(), b % pm()) == (a * b) % pm(),
{
    lemma_mul_mod_noop_general(a, b, pm());
}

/// `b^e` modulo `P`.
pub open spec fn pow_m(b: int, e: nat) -> int
    decreases e,
{
    if e == 0 {
        1
    } else {
        mul_m(b, pow_m(b, (e - 1) as nat))
    }
}

/// Multiplication modulo `P` is commutative.
pub proof fn lemma_mulm_comm(a: int, b: int)
    ensures
        mul_m(a, b) == mul_m(b, a),
{
    lemma_mul_is_commutative(a, b);
}

/// Multiplication modulo `P` is associative.
pub proof fn lemma_mulm_assoc(a: int, b: int, c: int)
    ensures
        mul_m(mul_m(a, b), c) == mul_m(a, mul_m(b, c)),
{
    lemma_mul_mod_noop_general(a * b, c, pm());
    lemma_mul_is_associative(a, b, c);
    lemma_mul_mod_noop_general(a, b * c, pm());
}

/// On canonical values, halving is multiplication by the inverse of two,
/// which for this field is `2^30`.
pub proof fn lemma_halve_as_mul(x: int)
    requires
        0 <= x < pm(),
    ensures
        halve_m(x) == mul_m(1073741824, x),
{
    let i2: int = 1073741824;
    if x % 2 == 0 {
        let h = x / 2;
        assert(x == 2 * h);
        assert(i2 * x == pm() * h + h);
        lemma_mod_multiples_vanish(h, h, pm());
        lemma_small_mod(h as nat, pm() as nat);
    } else {
        let h = (x + pm()) / 2;
        assert(2 * h == x + pm());
        assert(i2 * x == pm() * (h - i2) + h);
        lemma_mod_multiples_vanish(h - i2, h, pm());
        lemma_small_mod(h as nat, pm() as nat);
    }
}

/// Halving distributes over addition modulo `P`.
pub proof fn lemma_halve_add(x: int, y: int)
    requires
        0 <= x < pm(),
        0 <= y < pm(),
    ensures
        halve_m(add_m(x, y)) == add_m(halve_m(x), halve_m(y)),
{
    let i2: int = 1073741824;
    lemma_mod_bound(x + y, pm());
    lemma_halve_as_mul((x + y) % pm());
    lemma_halve_as_mul(x);
    lemma_halve_as_mul(y);
    lemma_mul_mod_noop_right(i2, x + y, pm());
    lemma_mul_is_distributive_add(i2, x, y);
    lemma_add_mod_noop(i2 * x, i2 * y, pm());
}

/// Halving a doubled canonical value gives it back.
pub proof fn lemma_halve_double(a: int)
    requires
        0 <= a < pm(),
    ensures
        halve_m(add_m(a, a)) == a,
{
    if a + a < pm() {
        lemma_small_mod((a + a) as nat, pm() as nat);
    } else {
        lemma_mod_sub_multiples_vanish(a + a, pm());
        lemma_small_mod((a + a - pm()) as nat, pm() as nat);
    }
}

/// A canonical representative reduces to itself.
pub proof fn lemma_canon_mod(a: int)
    requires
        0 <= a < pm(),
    ensures
        a % pm() == a,
{
    lemma_small_mod(a as nat, pm() as nat);
}

} // verus!
