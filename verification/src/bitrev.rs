//! The circle-specific bit-reversal index map: standard bit reversal of the
//! low `bits` bits followed by a cascade of low-bit flips, the permutation it
//! induces on power-of-two-length vectors, and the explicit inverse map.

use vstd::prelude::*;
use vstd::arithmetic::div_mod::{lemma_basic_div, lemma_mod_multiples_vanish, lemma_multiply_divide_lt, 
    lemma_div_denominator, lemma_fundamental_div_mod, lemma_fundamental_div_mod_converse,
};
use vstd::arithmetic::mul::{lemma_mul_basics, lemma_mul_inequality, lemma_mul_is_associative,
    lemma_mul_is_commutative, lemma_mul_is_distributive_add, lemma_mul_is_distributive_add_other_way, lemma_mul_is_distributive_sub_other_way, lemma_mul_nonnegative};
use vstd::arithmetic::power2::{lemma_pow2_adds, lemma_pow2_pos, lemma_pow2_strictly_increases,
    lemma_pow2_unfold, lemma2_to64, pow2};

verus! {

/// The low `bits` bits of `i`, reversed: bit `j` of the input becomes bit
/// `bits - 1 - j` of the result.
pub open spec fn brev_v(i: nat, bits: nat) -> nat
    decreases bits,
{
    if bits == 0 {
        0
    } else {
        brev_v(i / 2, (bits - 1) as nat) + (i % 2) * pow2((bits - 1) as nat)
    }
}

/// Bit reversal stays inside the `bits`-bit range.
pub proof fn lemma_brev_bound(i: nat, bits: nat)
    ensures
        brev_v(i, bits) < pow2(bits),
    decreases bits,
{
    if bits == 0 {
        lemma_pow2_pos(0);
        assert(pow2(0) == 1) by { lemma2_to64(); };
    } else {
        let b1 = (bits - 1) as nat;
        lemma_brev_bound(i / 2, b1);
        lemma_pow2_unfold(bits);
        assert((i % 2) * pow2(b1) <= 1 * pow2(b1)) by {
            lemma_mul_inequality((i % 2) as int, 1, pow2(b1) as int);
        };
    }
}

/// Reverse the low `bits` bits of `x`.
pub fn reverse_bits_len(x: usize, bits: usize) -> (r: usize)
    requires
        bits <= 31,
        (x as nat) < pow2(bits as nat),
    ensures
        r as nat == brev_v(x as nat, bits as nat),
        (r as nat) < pow2(bits as nat),
{
    let mut r: usize = 0;
    let mut cur: usize = x;
    let mut t: usize = 0;
    proof {
        lemma2_to64();
    }
    while t < bits
        invariant
            t <= bits,
            bits <= 31,
            (cur as nat) == (x as nat) / pow2(t as nat),
            (r as nat) < pow2(t as nat),
            brev_v(x as nat, bits as nat) == (r as nat) * pow2((bits - t) as nat) + brev_v(
                cur as nat,
                (bits - t) as nat,
            ),
        decreases bits - t,
    {
        proof {
            let bt = (bits - t) as nat;
            let bt1 = (bits - t - 1) as nat;
            let ri = r as int;
            let ci = (cur as nat) % 2;
            let q = pow2(bt1) as int;
            // Unfold one step of brev_v on the remaining bits.
            assert(brev_v(cur as nat, bt) == brev_v((cur as nat) / 2, bt1) + ((cur as nat) % 2)
                * pow2(bt1));
            lemma_pow2_unfold(bt);
            // r * (2 * pow2(bt1)) == (2 * r) * pow2(bt1)
            lemma_mul_is_associative(ri, 2, q);
            // (2r + c) * pow2(bt1) == 2r * pow2(bt1) + c * pow2(bt1)
            lemma_mul_is_commutative(2 * ri + ci, q);
            lemma_mul_is_distributive_add(q, 2 * ri, ci as int);
            lemma_mul_is_commutative(q, 2 * ri);
            lemma_mul_is_commutative(q, ci as int);
            // new accumulator bound: 2 * r + 1 < 2 * pow2(t) == pow2(t + 1)
            lemma_pow2_unfold((t + 1) as nat);
            // new current value: (x / pow2(t)) / 2 == x / pow2(t + 1)
            lemma_div_denominator(x as int, pow2(t as nat) as int, 2);
            lemma_pow2_adds(t as nat, 1);
            assert(pow2(1) == 2) by { lemma2_to64(); };
            lemma_pow2_strictly_increases(t as nat, 31);
            assert(pow2(31) == 0x8000_0000) by { lemma2_to64(); };
        }
        r = r * 2 + cur % 2;
        cur = cur / 2;
        t += 1;
    }
    proof {
        assert(pow2(0) == 1) by { lemma2_to64(); };
        assert(brev_v(cur as nat, 0) == 0);
        lemma_mul_basics(r as int);
        assert((r as nat) * pow2((bits - t) as nat) == r as nat);
    }
    r
}

/// `n` is a power of two no larger than `2^31`.
pub open spec fn is_pow2_len(n: nat) -> bool {
    exists|b: nat| b <= 31 && n == pow2(b)
}

/// The exponent of a power-of-two length.
pub open spec fn log2_of(n: nat) -> nat {
    choose|b: nat| b <= 31 && n == pow2(b)
}

/// `log2_of` inverts `pow2` on the supported range.
pub proof fn lemma_log2_of(b: nat)
    requires
        b <= 31,
    ensures
        log2_of(pow2(b)) == b,
{
    assert(is_pow2_len(pow2(b)));
    let w = log2_of(pow2(b));
    if w < b {
        lemma_pow2_strictly_increases(w, b);
    }
    if b < w {
        lemma_pow2_strictly_increases(b, w);
    }
}

/// The exponent of a power-of-two value, by repeated halving.
pub fn log2_strict(n: usize) -> (r: usize)
    requires
        n >= 1,
        is_pow2_len(n as nat),
    ensures
        pow2(r as nat) == n as nat,
        r <= 31,
        r as nat == log2_of(n as nat),
{
    let mut m: usize = n;
    let mut r: usize = 0;
    let ghost b0 = log2_of(n as nat);
    proof {
        lemma2_to64();
        assert(b0 <= 31 && n as nat == pow2(b0));
    }
    while m % 2 == 0
        invariant
            m >= 1,
            r <= b0 <= 31,
            (m as nat) * pow2(r as nat) == n as nat,
            n as nat == pow2(b0),
            exists|b: nat| m as nat == pow2(b),
        decreases m,
    {
        proof {
            let b = choose|b: nat| m as nat == pow2(b);
            if b == 0 {
                assert(pow2(0) == 1) by { lemma2_to64(); };
            } else {
                lemma_pow2_unfold(b);
                assert((m / 2) as nat == pow2((b - 1) as nat));
            }
            lemma_pow2_unfold((r + 1) as nat);
            lemma_mul_is_associative((m / 2) as int, 2, pow2(r as nat) as int);
            // The next exponent still fits under the known bound b0.
            assert(((m / 2) as nat) * pow2((r + 1) as nat) == pow2(b0));
            lemma_mul_inequality(1, (m / 2) as int, pow2((r + 1) as nat) as int);
            lemma_mul_is_commutative((m / 2) as int, pow2((r + 1) as nat) as int);
            if r + 1 > b0 {
                lemma_pow2_strictly_increases(b0, (r + 1) as nat);
                assert(false);
            }
        }
        m = m / 2;
        r += 1;
    }
    proof {
        let b = choose|b: nat| m as nat == pow2(b);
        if b != 0 {
            lemma_pow2_unfold(b);
        }
        assert(pow2(0) == 1) by { lemma2_to64(); };
        assert(m == 1);
        lemma_mul_basics(pow2(r as nat) as int);
        assert((m as nat) * pow2(r as nat) == pow2(r as nat));
        assert(pow2(r as nat) == n as nat);
        if (r as nat) < b0 {
            lemma_pow2_strictly_increases(r as nat, b0);
        }
        if b0 < r as nat {
            lemma_pow2_strictly_increases(b0, r as nat);
        }
        assert(r as nat == b0);
        lemma_log2_of(b0);
        assert(r as nat == log2_of(n as nat));
    }
    r
}

/// Flip the bits of `x` below position `i` if bit `i` of `x` is set.
pub open spec fn flip_low(x: nat, i: nat) -> nat {
    let pw = pow2(i);
    let low = x % pw;
    if (x / pw) % 2 == 1 {
        ((x - low) + (pw - 1 - low)) as nat
    } else {
        x
    }
}

/// Flipping the low bits twice at the same position restores the value.
pub proof fn lemma_flip_low_involution(x: nat, i: nat)
    ensures
        flip_low(flip_low(x, i), i) == x,
{
    let pw = pow2(i) as int;
    lemma_pow2_pos(i);
    let q = (x as int) / pw;
    let low = (x as int) % pw;
    lemma_fundamental_div_mod(x as int, pw);
    if q % 2 == 1 {
        let y = flip_low(x, i) as int;
        assert(y == q * pw + (pw - 1 - low)) by {
            lemma_mul_is_commutative(pw, q);
        };
        lemma_fundamental_div_mod_converse(y, pw, q, pw - 1 - low);
        assert(flip_low(flip_low(x, i), i) as int == q * pw + low);
        lemma_mul_is_commutative(pw, q);
    }
}

/// Flipping low bits below position `i < b` keeps a `b`-bit value in range.
pub proof fn lemma_flip_low_bound(x: nat, i: nat, b: nat)
    requires
        i < b,
        x < pow2(b),
    ensures
        flip_low(x, i) < pow2(b),
{
    let pw = pow2(i) as int;
    lemma_pow2_pos(i);
    let q = (x as int) / pw;
    let low = (x as int) % pw;
    lemma_fundamental_div_mod(x as int, pw);
    if q % 2 == 1 {
        lemma_pow2_adds(i, (b - i) as nat);
        lemma_mul_is_commutative(pw, pow2((b - i) as nat) as int);
        lemma_multiply_divide_lt(x as int, pw, pow2((b - i) as nat) as int);
        // q <= pow2(b - i) - 1, so q * pw <= pow2(b) - pw.
        lemma_mul_inequality(q, pow2((b - i) as nat) - 1, pw);
        lemma_mul_is_distributive_sub_other_way(pw, pow2((b - i) as nat) as int, 1);
        assert(flip_low(x, i) as int == q * pw + (pw - 1 - low));
    }
}

/// Apply [`flip_low`] at positions `i, i + 1, ..., bits - 1`, in that order.
pub open spec fn flip_asc(x: nat, i: nat, bits: nat) -> nat
    decreases bits - i,
{
    if i >= bits {
        x
    } else {
        flip_asc(flip_low(x, i), i + 1, bits)
    }
}

/// Apply [`flip_low`] at positions `hi - 1, hi - 2, ..., lo`, in that order.
pub open spec fn flip_desc(x: nat, hi: nat, lo: nat) -> nat
    decreases hi,
{
    if hi <= lo {
        x
    } else {
        flip_desc(flip_low(x, (hi - 1) as nat), (hi - 1) as nat, lo)
    }
}

/// The ascending cascade keeps a `b`-bit value in range.
pub proof fn lemma_flip_asc_bound(x: nat, i: nat, b: nat)
    requires
        x < pow2(b),
    ensures
        flip_asc(x, i, b) < pow2(b),
    decreases b - i,
{
    if i < b {
        lemma_flip_low_bound(x, i, b);
        lemma_flip_asc_bound(flip_low(x, i), i + 1, b);
    }
}

/// The descending cascade keeps a `b`-bit value in range.
pub proof fn lemma_flip_desc_bound(x: nat, hi: nat, lo: nat, b: nat)
    requires
        x < pow2(b),
        hi <= b,
    ensures
        flip_desc(x, hi, lo) < pow2(b),
    decreases hi,
{
    if hi > lo {
        lemma_flip_low_bound(x, (hi - 1) as nat, b);
        lemma_flip_desc_bound(flip_low(x, (hi - 1) as nat), (hi - 1) as nat, lo, b);
    }
}

/// The descending cascade can instead peel its last (lowest) step.
pub proof fn lemma_flip_desc_peel(y: nat, hi: nat, lo: nat)
    requires
        lo < hi,
    ensures
        flip_desc(y, hi, lo) == flip_low(flip_desc(y, hi, lo + 1), lo),
    decreases hi - lo,
{
    if hi == lo + 1 {
        assert(flip_desc(y, hi, lo) == flip_desc(flip_low(y, lo), lo, lo));
    } else {
        lemma_flip_desc_peel(flip_low(y, (hi - 1) as nat), (hi - 1) as nat, lo);
    }
}

/// The ascending cascade can instead peel its last (highest) step.
pub proof fn lemma_flip_asc_peel(y: nat, i: nat, bits: nat)
    requires
        i < bits,
    ensures
        flip_asc(y, i, bits) == flip_low(flip_asc(y, i, (bits - 1) as nat), (bits - 1) as nat),
    decreases bits - i,
{
    if i == bits - 1 {
        assert(flip_asc(y, i, bits) == flip_asc(flip_low(y, i), i + 1, bits));
    } else {
        lemma_flip_asc_peel(flip_low(y, i), i + 1, bits);
    }
}

/// The descending cascade undoes the ascending cascade.
pub proof fn lemma_flip_desc_asc(x: nat, i: nat, bits: nat)
    requires
        i <= bits,
    ensures
        flip_desc(flip_asc(x, i, bits), bits, i) == x,
    decreases bits - i,
{
    if i < bits {
        let x1 = flip_low(x, i);
        lemma_flip_desc_asc(x1, i + 1, bits);
        lemma_flip_desc_peel(flip_asc(x1, i + 1, bits), bits, i);
        lemma_flip_low_involution(x, i);
    }
}

/// The ascending cascade undoes the descending cascade.
pub proof fn lemma_flip_asc_desc(x: nat, hi: nat, lo: nat)
    requires
        lo <= hi,
    ensures
        flip_asc(flip_desc(x, hi, lo), lo, hi) == x,
    decreases hi - lo,
{
    if lo < hi {
        let x1 = flip_low(x, (hi - 1) as nat);
        lemma_flip_asc_desc(x1, (hi - 1) as nat, lo);
        lemma_flip_asc_peel(flip_desc(x1, (hi - 1) as nat, lo), lo, hi);
        lemma_flip_low_involution(x, (hi - 1) as nat);
    }
}

/// A value whose top bit is set reverses to the reversal of its low part,
/// shifted up by one, with a one in the lowest position.
proof fn lemma_brev_high(y: nat, c: nat, b: nat)
    requires
        b >= 1,
        y < pow2((b - 1) as nat),
        c <= 1,
    ensures
        brev_v(y + c * pow2((b - 1) as nat), b) == 2 * brev_v(y, (b - 1) as nat) + c,
    decreases b,
{
    lemma2_to64();
    let b1 = (b - 1) as nat;
    if b == 1 {
        assert(y == 0);
        assert(brev_v(c, 1) == brev_v(c / 2, 0) + (c % 2) * pow2(0));
        if c == 1 {
            assert(brev_v(1nat, 1) == 1);
        } else {
            assert(brev_v(0nat, 1) == 0);
        }
    } else {
        let b2 = (b - 2) as nat;
        let i = y + c * pow2(b1);
        lemma_pow2_unfold(b1);
        lemma_fundamental_div_mod(y as int, 2);
        // i == 2 * (y / 2 + c * pow2(b - 2)) + y % 2
        assert(i as int == 2 * ((y as int) / 2 + c * pow2(b2)) + (y as int) % 2) by {
            if c == 1 {
                assert(c * pow2(b1) == pow2(b1) && c * pow2(b2) == pow2(b2));
            } else {
                assert(c * pow2(b1) == 0 && c * pow2(b2) == 0);
            }
        };
        lemma_fundamental_div_mod_converse(
            i as int,
            2,
            (y as int) / 2 + c * pow2(b2),
            (y as int) % 2,
        );
        // y / 2 stays under pow2(b - 2)
        lemma_pow2_pos(b2);
        lemma_multiply_divide_lt(y as int, 2, pow2(b2) as int);
        lemma_brev_high(y / 2, c, b1);
        assert(brev_v(i, b) == brev_v(i / 2, b1) + (i % 2) * pow2(b1));
        assert(brev_v(y, b1) == brev_v(y / 2, b2) + (y % 2) * pow2(b2));
        lemma_mul_basics(pow2(b1) as int);
        lemma_mul_basics(pow2(b2) as int);
        if y % 2 == 1 {
            assert((i % 2) * pow2(b1) == 1 * pow2(b1));
            assert((y % 2) * pow2(b2) == 1 * pow2(b2));
        } else {
            assert((i % 2) * pow2(b1) == 0 * pow2(b1));
            assert((y % 2) * pow2(b2) == 0 * pow2(b2));
        }
    }
}

/// Bit reversal at a fixed width is an involution.
pub proof fn lemma_brev_involution(i: nat, b: nat)
    requires
        i < pow2(b),
    ensures
        brev_v(brev_v(i, b), b) == i,
    decreases b,
{
    lemma2_to64();
    if b == 0 {
        assert(i == 0);
    } else {
        let b1 = (b - 1) as nat;
        let r1 = brev_v(i / 2, b1);
        lemma_brev_bound(i / 2, b1);
        lemma_pow2_pos(b1);
        lemma_pow2_unfold(b);
        lemma_multiply_divide_lt(i as int, 2, pow2(b1) as int);
        lemma_brev_involution(i / 2, b1);
        lemma_brev_high(r1, i % 2, b);
        assert(brev_v(i, b) == r1 + (i % 2) * pow2(b1));
        lemma_fundamental_div_mod(i as int, 2);
    }
}

/// The circle bit-reversal index map, sending a storage-order index to the
/// natural (generator-order) index: standard bit reversal, then the flip
/// cascade from the lowest position upward.
pub open spec fn cbr_v(idx: nat, bits: nat) -> nat {
    flip_asc(brev_v(idx, bits), 0, bits)
}

/// The inverse of [`cbr_v`]: the flip cascade from the highest position
/// downward, then standard bit reversal.
pub open spec fn cbr_inv_v(idx: nat, bits: nat) -> nat {
    brev_v(flip_desc(idx, bits, 0), bits)
}

/// The map stays inside the `bits`-bit index range.
pub proof fn lemma_cbr_bound(idx: nat, bits: nat)
    ensures
        cbr_v(idx, bits) < pow2(bits),
        cbr_inv_v(idx, bits) < pow2(bits),
{
    lemma_brev_bound(idx, bits);
    lemma_flip_asc_bound(brev_v(idx, bits), 0, bits);
    lemma_brev_bound(flip_desc(idx, bits, 0), bits);
}

/// The two maps are mutually inverse permutations of `[0, 2^bits)`.
pub proof fn lemma_circle_bitrev_inverse(i: nat, bits: nat)
    requires
        i < pow2(bits),
    ensures
        cbr_inv_v(cbr_v(i, bits), bits) == i,
        cbr_v(cbr_inv_v(i, bits), bits) == i,
{
    lemma_flip_desc_asc(brev_v(i, bits), 0, bits);
    lemma_brev_involution(i, bits);
    lemma_flip_desc_bound(i, bits, 0, bits);
    lemma_brev_involution(flip_desc(i, bits, 0), bits);
    lemma_flip_asc_desc(i, bits, 0);
}

/// Flipping below position `j` ignores a set bit at a higher position `e`.
proof fn lemma_flip_low_high(y: nat, j: nat, e: nat)
    requires
        j < e,
    ensures
        flip_low(y + pow2(e), j) == flip_low(y, j) + pow2(e),
{
    let pw = pow2(j) as int;
    let t = pow2(e) as int;
    lemma_pow2_pos(j);
    lemma_pow2_pos(e);
    lemma_pow2_adds(j, (e - j) as nat);
    let q = (y as int) / pw;
    let r = (y as int) % pw;
    lemma_fundamental_div_mod(y as int, pw);
    // y + 2^e == pw * (q + 2^(e-j)) + r
    assert((y as int) + t == (q + pow2((e - j) as nat)) * pw + r) by {
        lemma_mul_is_distributive_add_other_way(pw, q, pow2((e - j) as nat) as int);
        lemma_mul_is_commutative(pw, q);
        lemma_mul_is_commutative(pw, pow2((e - j) as nat) as int);
    };
    lemma_fundamental_div_mod_converse(
        (y as int) + t,
        pw,
        q + pow2((e - j) as nat),
        r,
    );
    // the higher power of two is even, so the flip condition is unchanged
    lemma_pow2_unfold((e - j) as nat);
    assert((q + pow2((e - j) as nat)) % 2 == q % 2) by {
        lemma_mod_multiples_vanish(pow2((e - j - 1) as nat) as int, q, 2);
    };
}

/// The ascending cascade over positions below `e` ignores a set bit at `e`.
proof fn lemma_flip_asc_high(y: nat, j: nat, hi: nat, e: nat)
    requires
        hi <= e,
    ensures
        flip_asc(y + pow2(e), j, hi) == flip_asc(y, j, hi) + pow2(e),
    decreases hi - j,
{
    if j < hi {
        lemma_flip_low_high(y, j, e);
        lemma_flip_asc_high(flip_low(y, j), j + 1, hi, e);
    }
}

/// An even storage index maps exactly as it would one level down:
/// appending a low zero bit leaves the natural index unchanged.
pub proof fn lemma_cbr_even(i: nat, b: nat)
    requires
        b >= 1,
        i < pow2((b - 1) as nat),
    ensures
        cbr_v(2 * i, b) == cbr_v(i, (b - 1) as nat),
{
    let b1 = (b - 1) as nat;
    // bit reversal drops the low zero bit
    assert(brev_v(2 * i, b) == brev_v((2 * i) / 2, b1) + ((2 * i) % 2) * pow2(b1));
    assert((2 * i) / 2 == i && (2 * i) % 2 == 0);
    lemma_mul_basics(pow2(b1) as int);
    assert(brev_v(2 * i, b) == brev_v(i, b1));
    // the top flip step sees a clear bit and does nothing
    let x = brev_v(i, b1);
    lemma_brev_bound(i, b1);
    lemma_flip_asc_peel(x, 0, b);
    lemma_flip_asc_bound(x, 0, b1);
    let z = flip_asc(x, 0, b1);
    lemma_pow2_pos(b1);
    lemma_basic_div(z as int, pow2(b1) as int);
}

/// Adjacent storage positions address mirrored natural indices: positions
/// `2i` and `2i + 1` map to natural indices summing to `2^b - 1`, the two
/// domain points that differ only in the sign of one coordinate.
pub proof fn lemma_cbr_pair(i: nat, b: nat)
    requires
        b >= 1,
        i < pow2((b - 1) as nat),
    ensures
        cbr_v(2 * i + 1, b) + cbr_v(2 * i, b) == pow2(b) - 1,
{
    let b1 = (b - 1) as nat;
    lemma_pow2_pos(b1);
    lemma_pow2_unfold(b);
    // bit reversal sends the low one bit to the top
    assert(brev_v(2 * i + 1, b) == brev_v((2 * i + 1) / 2, b1) + ((2 * i + 1) % 2) * pow2(b1));
    assert((2 * i + 1) / 2 == i && (2 * i + 1) % 2 == 1);
    lemma_mul_basics(pow2(b1) as int);
    let x = brev_v(i, b1);
    lemma_brev_bound(i, b1);
    assert(brev_v(2 * i + 1, b) == x + pow2(b1));
    // the low flips ignore the top bit, which the final step then clears
    lemma_flip_asc_peel(x + pow2(b1), 0, b);
    lemma_flip_asc_high(x, 0, b1, b1);
    lemma_flip_asc_bound(x, 0, b1);
    let z = flip_asc(x, 0, b1);
    let t = pow2(b1) as int;
    lemma_fundamental_div_mod_converse((z as int) + t, t, 1, z as int);
    assert(flip_low((z + pow2(b1)) as nat, b1) == (z + pow2(b1)) as nat - z + (pow2(b1) - 1
        - z));
    // the even position ends at z itself
    lemma_cbr_even(i, b);
    lemma_flip_asc_peel(x, 0, b);
    lemma_basic_div(z as int, t);
}

/// `2^e` as a machine integer.
pub fn pow2_exec(e: usize) -> (r: usize)
    requires
        e <= 31,
    ensures
        r as nat == pow2(e as nat),
{
    let mut r: usize = 1;
    let mut j: usize = 0;
    proof {
        lemma2_to64();
    }
    while j < e
        invariant
            j <= e <= 31,
            r as nat == pow2(j as nat),
        decreases e - j,
    {
        proof {
            lemma_pow2_unfold((j + 1) as nat);
            lemma_pow2_strictly_increases(j as nat, 31);
            assert(pow2(31) == 0x8000_0000) by { lemma2_to64(); };
        }
        r = r * 2;
        j += 1;
    }
    r
}

/// Map a storage-order index to its natural (generator-order) index.
pub fn circle_bitrev_idx(idx: usize, bits: usize) -> (r: usize)
    requires
        bits <= 31,
        (idx as nat) < pow2(bits as nat),
    ensures
        r as nat == cbr_v(idx as nat, bits as nat),
        (r as nat) < pow2(bits as nat),
{
    let mut x: usize = reverse_bits_len(idx, bits);
    let mut pw: usize = 1;
    let mut i: usize = 0;
    proof {
        lemma2_to64();
    }
    while i < bits
        invariant
            i <= bits <= 31,
            pw as nat == pow2(i as nat),
            (x as nat) < pow2(bits as nat),
            cbr_v(idx as nat, bits as nat) == flip_asc(x as nat, i as nat, bits as nat),
        decreases bits - i,
    {
        proof {
            lemma_pow2_pos(i as nat);
            lemma_fundamental_div_mod(x as int, pw as int);
            lemma_mul_nonnegative(pw as int, (x as int) / (pw as int));
            lemma_flip_low_bound(x as nat, i as nat, bits as nat);
            lemma_pow2_strictly_increases(bits as nat, 32);
            assert(pow2(32) == 0x1_0000_0000) by { lemma2_to64(); };
            lemma_pow2_unfold((i + 1) as nat);
            lemma_pow2_strictly_increases(i as nat, 31);
            assert(pow2(31) == 0x8000_0000) by { lemma2_to64(); };
            assert(flip_asc(x as nat, i as nat, bits as nat) == flip_asc(
                flip_low(x as nat, i as nat),
                (i + 1) as nat,
                bits as nat,
            ));
        }
        let low = x % pw;
        if (x / pw) % 2 == 1 {
            x = (x - low) + (pw - 1 - low);
        }
        pw = pw * 2;
        i += 1;
    }
    x
}

/// Map a natural (generator-order) index to its storage-order index.
pub fn circle_bitrev_idx_inv(idx: usize, bits: usize) -> (r: usize)
    requires
        bits <= 31,
        (idx as nat) < pow2(bits as nat),
    ensures
        r as nat == cbr_inv_v(idx as nat, bits as nat),
        (r as nat) < pow2(bits as nat),
{
    let mut x: usize = idx;
    let mut j: usize = 0;
    while j < bits
        invariant
            j <= bits <= 31,
            (x as nat) < pow2(bits as nat),
            flip_desc(idx as nat, bits as nat, 0) == flip_desc(
                x as nat,
                (bits - j) as nat,
                0,
            ),
        decreases bits - j,
    {
        let i = bits - 1 - j;
        let pw = pow2_exec(i);
        proof {
            lemma_pow2_pos(i as nat);
            lemma_fundamental_div_mod(x as int, pw as int);
            lemma_mul_nonnegative(pw as int, (x as int) / (pw as int));
            lemma_flip_low_bound(x as nat, i as nat, bits as nat);
            lemma_pow2_strictly_increases(bits as nat, 32);
            assert(pow2(32) == 0x1_0000_0000) by { lemma2_to64(); };
            assert(flip_desc(x as nat, (bits - j) as nat, 0) == flip_desc(
                flip_low(x as nat, i as nat),
                i as nat,
                0,
            ));
        }
        let low = x % pw;
        if (x / pw) % 2 == 1 {
            x = (x - low) + (pw - 1 - low);
        }
        j += 1;
    }
    reverse_bits_len(x, bits)
}

/// A marker for the row permutation that [`circle_bitrev_permute`] applies.
pub struct CircleBitrevPermutation;

impl CircleBitrevPermutation {
    /// The natural index that row `r` of a bit-reversed matrix came from.
    pub fn permute_index(r: usize, height: usize) -> (res: usize)
        requires
            is_pow2_len(height as nat),
            height >= 1,
            (r as nat) < height as nat,
        ensures
            res as nat == cbr_v(r as nat, log2_of(height as nat)),
            (res as nat) < height as nat,
    {
        let bits = log2_strict(height);
        circle_bitrev_idx(r, bits)
    }
}

/// Reorder a power-of-two-length vector into circle-bit-reversed storage
/// order: position `k` of the result holds the entry at natural index
/// `cbr_v(k)` of the input.
pub fn circle_bitrev_permute<T: Copy>(xs: &[T]) -> (r: Vec<T>)
    requires
        is_pow2_len(xs@.len()),
        xs@.len() >= 1,
    ensures
        r@.len() == xs@.len(),
        forall|k: int|
            0 <= k < r@.len() ==> r@[k] == xs@[cbr_v(k as nat, log2_of(xs@.len())) as int],
{
    let n = xs.len();
    let bits = log2_strict(n);
    let mut out: Vec<T> = Vec::new();
    let mut k: usize = 0;
    while k < n
        invariant
            k <= n,
            n == xs@.len(),
            pow2(bits as nat) == n as nat,
            bits as nat == log2_of(xs@.len()),
            bits <= 31,
            out@.len() == k,
            forall|j: int|
                0 <= j < k ==> out@[j] == xs@[cbr_v(j as nat, log2_of(xs@.len())) as int],
        decreases n - k,
    {
        let idx = circle_bitrev_idx(k, bits);
        out.push(xs[idx]);
        k += 1;
    }
    out
}

/// Indexing a permuted vector through the inverse map recovers the original
/// order: the permutation and its inverse compose to the identity on the
/// stored entries.
pub proof fn lemma_permute_roundtrip<T>(xs: Seq<T>, ys: Seq<T>, bits: nat)
    requires
        xs.len() == pow2(bits),
        ys.len() == xs.len(),
        forall|k: int| 0 <= k < ys.len() ==> ys[k] == xs[cbr_v(k as nat, bits) as int],
    ensures
        forall|j: int| 0 <= j < xs.len() ==> xs[j] == ys[cbr_inv_v(j as nat, bits) as int],
{
    assert forall|j: int| 0 <= j < xs.len() implies xs[j] == ys[cbr_inv_v(j as nat, bits) as int]
        by {
        let k = cbr_inv_v(j as nat, bits);
        lemma_cbr_bound(j as nat, bits);
        lemma_circle_bitrev_inverse(j as nat, bits);
        assert(ys[k as int] == xs[cbr_v(k, bits) as int]);
    };
}

} // verus!
