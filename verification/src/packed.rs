//! A width-generic packed-value abstraction: a packed value is a fixed-size
//! batch of scalar lanes, converted to and from scalar slices behind
//! bounds-checked copies, with lane-wise field arithmetic on top. The scalar
//! field packs itself with width one.

use vstd::prelude::*;

use crate::ext::EF;
use crate::m31::{add_m, lemma_mulm_assoc, lemma_mulm_comm, mul_m, pow_m, sub_m, M31};

verus! {

/// A scalar type whose values may serve as the lanes of a packed value.
pub trait Packable: Sized + Copy {

}

impl Packable for u8 {

}

impl Packable for u16 {

}

impl Packable for u32 {

}

impl Packable for u64 {

}

impl Packable for u128 {

}

impl Packable for M31 {

}

/// A fixed-width batch of scalar lanes.
pub trait PackedValue: Sized + Copy {
    type Value: Packable;

    /// The number of lanes.
    spec fn spec_width() -> nat;

    /// The lanes held by this value.
    spec fn contents(&self) -> Seq<Self::Value>;

    /// A packed value holds exactly `spec_width` lanes, and at least one.
    proof fn lemma_contents_len(&self)
        ensures
            self.contents().len() == Self::spec_width(),
            Self::spec_width() >= 1,
    ;

    /// The number of lanes, as a machine integer.
    fn width() -> (w: usize)
        ensures
            w as nat == Self::spec_width(),
            w >= 1,
    ;

    /// Gather one value from a full slice of lanes.
    fn from_scalars(s: &[Self::Value]) -> (r: Self)
        requires
            s@.len() == Self::spec_width(),
        ensures
            r.contents() == s@,
    ;

    /// Spread this value back out into its lanes.
    fn to_scalars(&self) -> (v: Vec<Self::Value>)
        ensures
            v@ == self.contents(),
    ;
}

impl PackedValue for M31 {
    type Value = M31;

    open spec fn spec_width() -> nat {
        1
    }

    open spec fn contents(&self) -> Seq<M31> {
        seq![*self]
    }

    proof fn lemma_contents_len(&self) {
    }

    fn width() -> (w: usize) {
        1
    }

    fn from_scalars(s: &[M31]) -> (r: Self) {
        let r = s[0];
        proof {
            assert(seq![r] =~= s@);
        }
        r
    }

    fn to_scalars(&self) -> (v: Vec<M31>) {
        let mut v: Vec<M31> = Vec::new();
        v.push(*self);
        proof {
            assert(v@ =~= self.contents());
        }
        v
    }
}

/// Lane-wise field arithmetic over packed Mersenne31 values.
pub trait PackedField: PackedValue<Value = M31> {
    /// Lane-wise addition.
    fn p_add(self, rhs: Self) -> (r: Self)
        ensures
            r.contents().len() == Self::spec_width(),
            forall|i: int|
                0 <= i < Self::spec_width() ==> (#[trigger] r.contents()[i]).val() == add_m(
                    self.contents()[i].val(),
                    rhs.contents()[i].val(),
                ),
    ;

    /// Lane-wise subtraction.
    fn p_sub(self, rhs: Self) -> (r: Self)
        ensures
            r.contents().len() == Self::spec_width(),
            forall|i: int|
                0 <= i < Self::spec_width() ==> (#[trigger] r.contents()[i]).val() == sub_m(
                    self.contents()[i].val(),
                    rhs.contents()[i].val(),
                ),
    ;

    /// Lane-wise multiplication.
    fn p_mul(self, rhs: Self) -> (r: Self)
        ensures
            r.contents().len() == Self::spec_width(),
            forall|i: int|
                0 <= i < Self::spec_width() ==> (#[trigger] r.contents()[i]).val() == mul_m(
                    self.contents()[i].val(),
                    rhs.contents()[i].val(),
                ),
    ;

    /// The first `count` packed blocks of the sequence
    /// `start, start * base, start * base^2, ...`: lane `j` of block `k`
    /// holds `start * base^(k * width + j)`.
    fn shifted_powers(base: M31, start: M31, count: usize) -> (r: Vec<Self>)
        ensures
            r@.len() == count,
            forall|k: int, j: int|
                0 <= k < count && 0 <= j < Self::spec_width() ==> (#[trigger] r@[k].contents()[
                    j
                ]).val() == mul_m(
                    start.val(),
                    pow_m(base.val(), (k * Self::spec_width() + j) as nat),
                ),
    ;

    /// The first `count` packed blocks of `1, base, base^2, ...`.
    fn powers(base: M31, count: usize) -> (r: Vec<Self>)
        ensures
            r@.len() == count,
            forall|k: int, j: int|
                0 <= k < count && 0 <= j < Self::spec_width() ==> (#[trigger] r@[k].contents()[
                    j
                ]).val() == mul_m(1, pow_m(base.val(), (k * Self::spec_width() + j) as nat)),
    ;
}

impl PackedField for M31 {
    fn p_add(self, rhs: Self) -> (r: Self) {
        self.add(rhs)
    }

    fn p_sub(self, rhs: Self) -> (r: Self) {
        self.sub(rhs)
    }

    fn p_mul(self, rhs: Self) -> (r: Self) {
        self.mul(rhs)
    }

    fn shifted_powers(base: M31, start: M31, count: usize) -> (r: Vec<Self>) {
        let mut out: Vec<M31> = Vec::new();
        let mut cur = start;
        let mut k: usize = 0;
        proof {
            use_type_invariant(start);
            crate::m31::lemma_canon_mod(start.val());
            vstd::arithmetic::mul::lemma_mul_basics(start.val());
        }
        while k < count
            invariant
                k <= count,
                out@.len() == k,
                cur.val() == mul_m(start.val(), pow_m(base.val(), k as nat)),
                forall|j: int|
                    0 <= j < k ==> (#[trigger] out@[j]).val() == mul_m(
                        start.val(),
                        pow_m(base.val(), j as nat),
                    ),
            decreases count - k,
        {
            out.push(cur);
            proof {
                lemma_mulm_comm(cur.val(), base.val());
                lemma_mulm_comm(mul_m(start.val(), pow_m(base.val(), k as nat)), base.val());
                lemma_mulm_assoc(base.val(), start.val(), pow_m(base.val(), k as nat));
                // base * (start * base^k) == start * (base * base^k) == start * base^(k+1)
                lemma_mulm_comm(base.val(), start.val());
                lemma_mulm_assoc(start.val(), base.val(), pow_m(base.val(), k as nat));
            }
            cur = cur.mul(base);
            k += 1;
        }
        proof {
            assert forall|k2: int, j: int|
                0 <= k2 < count && 0 <= j < Self::spec_width() implies (#[trigger] out@[k2].contents()[
                j
            ]).val() == mul_m(start.val(), pow_m(base.val(), (k2 * Self::spec_width() + j) as nat))
                by {
                assert(j == 0);
                vstd::arithmetic::mul::lemma_mul_basics(k2);
                assert(out@[k2].contents()[0] == out@[k2]);
            };
        }
        out
    }

    fn powers(base: M31, count: usize) -> (r: Vec<Self>) {
        Self::shifted_powers(base, M31::one(), count)
    }
}

/// A two-lane packed Mersenne31 value: the smallest width at which packing
/// batches anything.
#[derive(Clone, Copy, PartialEq, Eq, Structural, Debug)]
pub struct M31Pair {
    pub lo: M31,
    pub hi: M31,
}

impl PackedValue for M31Pair {
    type Value = M31;

    open spec fn spec_width() -> nat {
        2
    }

    open spec fn contents(&self) -> Seq<M31> {
        seq![self.lo, self.hi]
    }

    proof fn lemma_contents_len(&self) {
    }

    fn width() -> (w: usize) {
        2
    }

    fn from_scalars(s: &[M31]) -> (r: Self) {
        let r = M31Pair { lo: s[0], hi: s[1] };
        proof {
            assert(r.contents() =~= s@);
        }
        r
    }

    fn to_scalars(&self) -> (v: Vec<M31>) {
        let mut v: Vec<M31> = Vec::new();
        v.push(self.lo);
        v.push(self.hi);
        proof {
            assert(v@ =~= self.contents());
        }
        v
    }
}

impl PackedField for M31Pair {
    fn p_add(self, rhs: Self) -> (r: Self) {
        M31Pair { lo: self.lo.add(rhs.lo), hi: self.hi.add(rhs.hi) }
    }

    fn p_sub(self, rhs: Self) -> (r: Self) {
        M31Pair { lo: self.lo.sub(rhs.lo), hi: self.hi.sub(rhs.hi) }
    }

    fn p_mul(self, rhs: Self) -> (r: Self) {
        M31Pair { lo: self.lo.mul(rhs.lo), hi: self.hi.mul(rhs.hi) }
    }

    fn shifted_powers(base: M31, start: M31, count: usize) -> (r: Vec<Self>) {
        let mut out: Vec<M31Pair> = Vec::new();
        let mut cur = start;
        let mut k: usize = 0;
        proof {
            use_type_invariant(start);
            crate::m31::lemma_canon_mod(start.val());
            vstd::arithmetic::mul::lemma_mul_basics(start.val());
        }
        while k < count
            invariant
                k <= count,
                out@.len() == k,
                cur.val() == mul_m(start.val(), pow_m(base.val(), (2 * k) as nat)),
                forall|j: int, l: int|
                    0 <= j < k && 0 <= l < 2 ==> (#[trigger] out@[j].contents()[l]).val()
                        == mul_m(start.val(), pow_m(base.val(), (2 * j + l) as nat)),
            decreases count - k,
        {
            let step = cur.mul(base);
            proof {
                // start * base^(2k) times base is start * base^(2k + 1)
                lemma_mulm_comm(cur.val(), base.val());
                lemma_mulm_comm(base.val(), start.val());
                lemma_mulm_assoc(base.val(), start.val(), pow_m(base.val(), (2 * k) as nat));
                lemma_mulm_assoc(start.val(), base.val(), pow_m(base.val(), (2 * k) as nat));
                // and once more for start * base^(2k + 2)
                lemma_mulm_comm(step.val(), base.val());
                lemma_mulm_comm(base.val(), start.val());
                lemma_mulm_assoc(base.val(), start.val(), pow_m(base.val(), (2 * k + 1) as nat));
                lemma_mulm_assoc(start.val(), base.val(), pow_m(base.val(), (2 * k + 1) as nat));
            }
            out.push(M31Pair { lo: cur, hi: step });
            cur = step.mul(base);
            k += 1;
        }
        proof {
            assert forall|k2: int, j: int|
                0 <= k2 < count && 0 <= j < Self::spec_width() implies (#[trigger] out@[k2].contents()[
                j]).val() == mul_m(
                start.val(),
                pow_m(base.val(), (k2 * Self::spec_width() + j) as nat),
            ) by {
                assert(k2 * Self::spec_width() == 2 * k2);
            };
        }
        out
    }

    fn powers(base: M31, count: usize) -> (r: Vec<Self>) {
        Self::shifted_powers(base, M31::one(), count)
    }
}

/// Interleaving for packed values whose width is a power of two.
///
/// Both inputs are read as `width / block_len` chunks of `block_len` lanes.
/// The first output takes the even-position chunks of `self` interleaved
/// with the even-position chunks of `other`; the second output takes the
/// odd-position chunks of each. With `block_len == width` the operation is
/// the identity pair.
pub trait PackedFieldPow2: PackedField {
    /// Interleave chunks of `block_len` lanes of two packed values.
    fn interleave(&self, other: Self, block_len: usize) -> (r: (Self, Self))
        requires
            1 <= block_len,
            (block_len as nat) <= Self::spec_width(),
            Self::spec_width() % (block_len as nat) == 0,
        ensures
            r.0.contents().len() == Self::spec_width(),
            r.1.contents().len() == Self::spec_width(),
            block_len as nat == Self::spec_width() ==> r.0.contents() == self.contents()
                && r.1.contents() == other.contents(),
            (block_len as nat) < Self::spec_width() ==> (forall|i: int|
                0 <= i < Self::spec_width() ==> (#[trigger] r.0.contents()[i]) == (if (i / (
                block_len as int)) % 2 == 0 {
                    self.contents()[i]
                } else {
                    other.contents()[i - block_len]
                })),
            (block_len as nat) < Self::spec_width() ==> (forall|i: int|
                0 <= i < Self::spec_width() ==> (#[trigger] r.1.contents()[i]) == (if (i / (
                block_len as int)) % 2 == 0 {
                    self.contents()[i + block_len]
                } else {
                    other.contents()[i]
                })),
    ;
}

impl PackedFieldPow2 for M31 {
    fn interleave(&self, other: Self, block_len: usize) -> (r: (Self, Self)) {
        (*self, other)
    }
}

impl PackedFieldPow2 for M31Pair {
    fn interleave(&self, other: Self, block_len: usize) -> (r: (Self, Self)) {
        if block_len == 2 {
            (*self, other)
        } else {
            (
                M31Pair { lo: self.lo, hi: other.lo },
                M31Pair { lo: self.hi, hi: other.hi },
            )
        }
    }
}

/// A packed batch of extension-field values over the packed base field.
pub trait PackedFieldExtension: Sized + Copy {
    /// The number of extension lanes.
    spec fn ext_width() -> nat;

    /// The extension lanes held by this value.
    spec fn ext_contents(&self) -> Seq<EF>;

    /// A packed extension holds exactly `ext_width` lanes, at least one.
    proof fn lemma_ext_contents_len(&self)
        ensures
            self.ext_contents().len() == Self::ext_width(),
            Self::ext_width() >= 1,
    ;

    /// Pack a whole slice of extension values.
    fn from_ext_slice(ext: &[EF]) -> (r: Vec<Self>)
        requires
            ext@.len() % Self::ext_width() == 0,
        ensures
            r@.len() * Self::ext_width() == ext@.len(),
            forall|k: int, j: int|
                0 <= k < r@.len() && 0 <= j < Self::ext_width() ==> (#[trigger] r@[k].ext_contents()[
                    j
                ]) == ext@[k * Self::ext_width() + j],
    ;

    /// Spread a slice of packed values back out into extension values.
    fn to_ext_slice(packed: &[Self]) -> (r: Vec<EF>)
        ensures
            r@.len() == packed@.len() * Self::ext_width(),
            forall|k: int, j: int|
                0 <= k < packed@.len() && 0 <= j < Self::ext_width() ==> (#[trigger] r@[k
                    * Self::ext_width() + j]) == packed@[k].ext_contents()[j],
    ;
}

impl PackedFieldExtension for EF {
    open spec fn ext_width() -> nat {
        1
    }

    open spec fn ext_contents(&self) -> Seq<EF> {
        seq![*self]
    }

    proof fn lemma_ext_contents_len(&self) {
    }

    fn from_ext_slice(ext: &[EF]) -> (r: Vec<Self>) {
        let mut out: Vec<EF> = Vec::new();
        let mut k: usize = 0;
        let n = ext.len();
        while k < n
            invariant
                k <= n,
                n == ext@.len(),
                out@.len() == k,
                forall|j: int| 0 <= j < k ==> (#[trigger] out@[j]) == ext@[j],
            decreases n - k,
        {
            out.push(ext[k]);
            k += 1;
        }
        proof {
            vstd::arithmetic::mul::lemma_mul_basics(out@.len() as int);
            assert forall|k2: int, j: int|
                0 <= k2 < out@.len() && 0 <= j < Self::ext_width() implies (#[trigger] out@[
                k2].ext_contents()[j]) == ext@[k2 * Self::ext_width() + j] by {
                assert(j == 0);
                vstd::arithmetic::mul::lemma_mul_basics(k2);
            };
        }
        out
    }

    fn to_ext_slice(packed: &[Self]) -> (r: Vec<EF>) {
        let mut out: Vec<EF> = Vec::new();
        let mut k: usize = 0;
        let n = packed.len();
        while k < n
            invariant
                k <= n,
                n == packed@.len(),
                out@.len() == k,
                forall|j: int| 0 <= j < k ==> (#[trigger] out@[j]) == packed@[j],
            decreases n - k,
        {
            out.push(packed[k]);
            k += 1;
        }
        proof {
            vstd::arithmetic::mul::lemma_mul_basics(packed@.len() as int);
            assert forall|k2: int, j: int|
                0 <= k2 < packed@.len() && 0 <= j < Self::ext_width() implies (#[trigger] out@[k2
                * Self::ext_width() + j]) == packed@[k2].ext_contents()[j] by {
                assert(j == 0);
                vstd::arithmetic::mul::lemma_mul_basics(k2);
            };
        }
        out
    }
}

/// Copy a scalar slice whose length is a whole number of packed widths into
/// packed values, lane order preserved.
pub fn pack_slice<P: PackedValue>(buf: &[P::Value]) -> (r: Vec<P>)
    requires
        buf@.len() % P::spec_width() == 0,
    ensures
        r@.len() * P::spec_width() == buf@.len(),
        forall|k: int, j: int|
            0 <= k < r@.len() && 0 <= j < P::spec_width() ==> (#[trigger] r@[k].contents()[j])
                == buf@[k * P::spec_width() + j],
{
    let w = P::width();
    let n = buf.len();
    let chunks = n / w;
    proof {
        vstd::arithmetic::div_mod::lemma_fundamental_div_mod(n as int, w as int);
        vstd::arithmetic::mul::lemma_mul_is_commutative(w as int, chunks as int);
    }
    let mut out: Vec<P> = Vec::new();
    let mut k: usize = 0;
    while k < chunks
        invariant
            k <= chunks,
            n == buf@.len(),
            w as nat == P::spec_width(),
            w >= 1,
            (chunks as int) * (w as int) == n,
            out@.len() == k,
            forall|k2: int, j: int|
                0 <= k2 < k && 0 <= j < P::spec_width() ==> (#[trigger] out@[k2].contents()[j])
                    == buf@[k2 * P::spec_width() + j],
        decreases chunks - k,
    {
        proof {
            vstd::arithmetic::mul::lemma_mul_inequality(k as int + 1, chunks as int, w as int);
            vstd::arithmetic::mul::lemma_mul_is_distributive_add_other_way(
                w as int,
                k as int,
                1,
            );
            vstd::arithmetic::mul::lemma_mul_basics(w as int);
            vstd::arithmetic::mul::lemma_mul_nonnegative(k as int, w as int);
        }
        let mut lane: Vec<P::Value> = Vec::new();
        let mut j: usize = 0;
        while j < w
            invariant
                j <= w,
                n == buf@.len(),
                (k as int + 1) * (w as int) <= n,
                lane@.len() == j,
                k < chunks,
                forall|j2: int|
                    0 <= j2 < j ==> (#[trigger] lane@[j2]) == buf@[(k as int) * (w as int) + j2],
            decreases w - j,
        {
            proof {
                vstd::arithmetic::mul::lemma_mul_is_distributive_add_other_way(
                    w as int,
                    k as int,
                    1,
                );
                vstd::arithmetic::mul::lemma_mul_basics(w as int);
                vstd::arithmetic::mul::lemma_mul_nonnegative(k as int, w as int);
            }
            lane.push(buf[k * w + j]);
            j += 1;
        }
        let p = P::from_scalars(lane.as_slice());
        out.push(p);
        k += 1;
    }
    out
}

/// Copy the longest packable prefix of a scalar slice into packed values,
/// returning the unpacked remainder alongside.
pub fn pack_slice_with_suffix<P: PackedValue>(buf: &[P::Value]) -> (r: (Vec<P>, Vec<P::Value>))
    ensures
        r.0@.len() * P::spec_width() + r.1@.len() == buf@.len(),
        r.1@.len() < P::spec_width(),
        forall|k: int, j: int|
            0 <= k < r.0@.len() && 0 <= j < P::spec_width() ==> (#[trigger] r.0@[k].contents()[j])
                == buf@[k * P::spec_width() + j],
        forall|j: int|
            0 <= j < r.1@.len() ==> (#[trigger] r.1@[j]) == buf@[buf@.len() - r.1@.len() + j],
{
    let w = P::width();
    let n = buf.len();
    let rem = n % w;
    proof {
        vstd::arithmetic::div_mod::lemma_fundamental_div_mod(n as int, w as int);
        vstd::arithmetic::div_mod::lemma_mod_bound(n as int, w as int);
        vstd::arithmetic::div_mod::lemma_div_pos_is_pos(n as int, w as int);
        vstd::arithmetic::mul::lemma_mul_nonnegative(w as int, n as int / (w as int));
        vstd::arithmetic::div_mod::lemma_sub_mod_noop(n as int, rem as int, w as int);
        assert((n - rem) % (w as int) == 0) by {
            vstd::arithmetic::div_mod::lemma_mod_self_0(w as int);
            vstd::arithmetic::div_mod::lemma_mod_twice(n as int, w as int);
            vstd::arithmetic::div_mod::lemma_small_mod(0nat, w as nat);
        };
    }
    let split = n - rem;
    let mut head: Vec<P::Value> = Vec::new();
    let mut i: usize = 0;
    while i < split
        invariant
            i <= split <= n,
            n == buf@.len(),
            head@.len() == i,
            forall|j: int| 0 <= j < i ==> (#[trigger] head@[j]) == buf@[j],
        decreases split - i,
    {
        head.push(buf[i]);
        i += 1;
    }
    let packed = pack_slice::<P>(head.as_slice());
    let mut tail: Vec<P::Value> = Vec::new();
    let mut t: usize = split;
    while t < n
        invariant
            split <= t <= n,
            n == buf@.len(),
            tail@.len() == t - split,
            forall|j: int| 0 <= j < tail@.len() ==> (#[trigger] tail@[j]) == buf@[split + j],
        decreases n - t,
    {
        tail.push(buf[t]);
        t += 1;
    }
    proof {
        let wsp = P::spec_width() as int;
        assert forall|k: int, j: int|
            0 <= k < packed@.len() && 0 <= j < P::spec_width() implies (#[trigger] packed@[
        k].contents()[j]) == buf@[k * P::spec_width() + j] by {
            vstd::arithmetic::mul::lemma_mul_inequality(k + 1, packed@.len() as int, wsp);
            vstd::arithmetic::mul::lemma_mul_is_distributive_add_other_way(wsp, k, 1);
            vstd::arithmetic::mul::lemma_mul_nonnegative(k, wsp);
        };
    }
    (packed, tail)
}

/// Spread a slice of packed values back out into one flat scalar vector.
pub fn unpack_slice<P: PackedValue>(buf: &[P]) -> (r: Vec<P::Value>)
    ensures
        r@.len() == buf@.len() * P::spec_width(),
        forall|k: int, j: int|
            0 <= k < buf@.len() && 0 <= j < P::spec_width() ==> (#[trigger] r@[k * P::spec_width()
                + j]) == buf@[k].contents()[j],
{
    let w = P::width();
    let n = buf.len();
    let mut out: Vec<P::Value> = Vec::new();
    let mut k: usize = 0;
    proof {
        vstd::arithmetic::mul::lemma_mul_basics(w as int);
    }
    while k < n
        invariant
            k <= n,
            n == buf@.len(),
            w as nat == P::spec_width(),
            w >= 1,
            out@.len() == (k as int) * (w as int),
            forall|k2: int, j: int|
                0 <= k2 < k && 0 <= j < P::spec_width() ==> (#[trigger] out@[k2 * P::spec_width()
                    + j]) == buf@[k2].contents()[j],
        decreases n - k,
    {
        proof {
            vstd::arithmetic::mul::lemma_mul_inequality(k as int + 1, n as int, w as int);
            vstd::arithmetic::mul::lemma_mul_is_distributive_add_other_way(w as int, k as int, 1);
            vstd::arithmetic::mul::lemma_mul_nonnegative(k as int, w as int);
            vstd::arithmetic::mul::lemma_mul_inequality(k as int, n as int, w as int);
        }
        let lanes = buf[k].to_scalars();
        proof {
            buf[k as int].lemma_contents_len();
        }
        let mut j: usize = 0;
        while j < w
            invariant
                j <= w,
                n == buf@.len(),
                k < n,
                w as nat == P::spec_width(),
                lanes@ == buf@[k as int].contents(),
                lanes@.len() == w,
                out@.len() == (k as int) * (w as int) + j,
                forall|k2: int, j2: int|
                    0 <= k2 < k && 0 <= j2 < P::spec_width() ==> (#[trigger] out@[k2
                        * P::spec_width() + j2]) == buf@[k2].contents()[j2],
                forall|j2: int|
                    0 <= j2 < j ==> (#[trigger] out@[(k as int) * (w as int) + j2]) == buf@[
                        k as int
                    ].contents()[j2],
            decreases w - j,
        {
            proof {
                assert forall|k2: int, j2: int|
                    0 <= k2 < k && 0 <= j2 < P::spec_width() implies #[trigger] (k2
                    * P::spec_width() + j2) < (k as int) * (w as int) by {
                    vstd::arithmetic::mul::lemma_mul_inequality(k2 + 1, k as int, w as int);
                    vstd::arithmetic::mul::lemma_mul_is_distributive_add_other_way(
                        w as int,
                        k2,
                        1,
                    );
                    vstd::arithmetic::mul::lemma_mul_nonnegative(k2, w as int);
                };
            }
            out.push(lanes[j]);
            j += 1;
        }
        k += 1;
        proof {
            vstd::arithmetic::mul::lemma_mul_is_distributive_add_other_way(
                w as int,
                k as int - 1,
                1,
            );
            vstd::arithmetic::mul::lemma_mul_basics(w as int);
        }
    }
    out
}

} // verus!
