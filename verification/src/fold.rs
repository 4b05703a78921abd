//! The circle-FRI folding rounds: the bivariate first round, the recursive
//! matrix rounds, and the single-row fold a verifier uses to recompute one
//! output entry without materializing the whole round.

use vstd::prelude::*;
use vstd::arithmetic::div_mod::{lemma_fundamental_div_mod, lemma_mod_bound};
use vstd::arithmetic::mul::{lemma_mul_basics, lemma_mul_inequality,
    lemma_mul_is_distributive_sub_other_way, lemma_mul_is_commutative};
use vstd::arithmetic::power2::pow2;

use crate::bitrev::{cbr_v, circle_bitrev_idx, circle_bitrev_permute, is_pow2_len, log2_of,
    log2_strict};
use crate::domain::{domain_point_v, CircleDomain};
use crate::ext::{ef_add_v, ef_canon, ef_halve_v, ef_mul_v, ef_scale_v, ef_sub_v, ef_zero, EfV, EF};
use crate::m31::{batch_inverse_or_zero, inv_m, inverse_or_zero, lemma_canon_mod,
    lemma_halve_double, pm, M31};
use crate::point::{gen_v, pt_mul_v, pt_pow_v, Point};

verus! {

/// A row-major matrix of extension-field evaluations.
#[derive(Debug)]
pub struct RowMajorMatrix {
    values: Vec<EF>,
    width: usize,
}

impl RowMajorMatrix {
    /// The stored length is a whole number of rows.
    #[verifier::type_invariant]
    closed spec fn wf(self) -> bool {
        self.width >= 1 && self.values@.len() % (self.width as nat) == 0
    }

    /// The number of columns.
    pub closed spec fn width_s(self) -> nat {
        self.width as nat
    }

    /// The number of rows.
    pub closed spec fn height_s(self) -> nat {
        self.values@.len() / (self.width as nat)
    }

    /// The value at row `r`, column `c`.
    pub closed spec fn entry_v(self, r: int, c: int) -> EfV {
        self.values@[r * (self.width as int) + c]@
    }

    /// Wrap a flat vector as a matrix of the given width.
    pub fn new(values: Vec<EF>, width: usize) -> (m: Self)
        requires
            width >= 1,
            values@.len() % (width as nat) == 0,
        ensures
            m.width_s() == width,
            m.height_s() * width == values@.len(),
            forall|r: int, c: int|
                0 <= r < m.height_s() && 0 <= c < width ==> m.entry_v(r, c) == values@[r * width
                    + c]@,
    {
        proof {
            lemma_fundamental_div_mod(values@.len() as int, width as int);
            lemma_mul_is_commutative(width as int, values@.len() as int / (width as int));
        }
        RowMajorMatrix { values, width }
    }

    /// The number of columns.
    pub fn width(&self) -> (w: usize)
        ensures
            w == self.width_s(),
    {
        self.width
    }

    /// The number of rows.
    pub fn height(&self) -> (h: usize)
        ensures
            h == self.height_s(),
    {
        proof {
            use_type_invariant(self);
            lemma_fundamental_div_mod(self.values@.len() as int, self.width as int);
            lemma_mod_bound(self.values@.len() as int, self.width as int);
        }
        self.values.len() / self.width
    }

    /// The entry at row `r`, column `c`.
    pub fn entry(&self, r: usize, c: usize) -> (e: EF)
        requires
            r < self.height_s(),
            c < self.width_s(),
        ensures
            e@ == self.entry_v(r as int, c as int),
    {
        let n = self.values.len();
        proof {
            use_type_invariant(self);
            let w = self.width as int;
            let h = self.height_s() as int;
            lemma_fundamental_div_mod(self.values@.len() as int, w);
            lemma_mod_bound(self.values@.len() as int, w);
            lemma_mul_inequality(r as int, h - 1, w);
            lemma_mul_is_distributive_sub_other_way(w, h, 1);
            lemma_mul_basics(w);
            lemma_mul_is_commutative(h, w);
            assert((r as int) * w + c < h * w);
        }
        self.values[r * self.width + c]
    }
}

/// One folding step on a row: `(lo + hi + beta * ((lo - hi) * t)) / 2`.
pub open spec fn row_fold_v(lo: EfV, hi: EfV, t: int, beta: EfV) -> EfV {
    ef_halve_v(ef_add_v(ef_add_v(lo, hi), ef_mul_v(beta, ef_scale_v(t, ef_sub_v(lo, hi)))))
}

/// The twiddle of output row `i` in a recursive round of output log-size
/// `log_height`: the inverse real coordinate of the bit-reversed point of
/// the domain two levels up.
pub open spec fn matrix_twiddle_v(log_height: nat, i: nat) -> int {
    inv_m(domain_point_v((log_height + 2) as nat, cbr_v(i, log_height)).x)
}

/// The twiddle of output row `i` in the bivariate first round: the inverse
/// imaginary coordinate of the bit-reversed point of the domain one level
/// up.
pub open spec fn bivariate_twiddle_v(log_height: nat, i: nat) -> int {
    inv_m(domain_point_v((log_height + 1) as nat, cbr_v(i, log_height)).y)
}

/// What the single-row fold returns: the row formula, with the twiddle
/// recovered from the shifted generator power at the bit-reversed index.
pub open spec fn fold_row_result_v(index: nat, log_height: nat, lo: EfV, hi: EfV, beta: EfV) -> EfV {
    let pt = pt_mul_v(
        gen_v((log_height + 3) as nat),
        pt_pow_v(gen_v((log_height + 2) as nat), cbr_v(index, log_height)),
    );
    row_fold_v(lo, hi, inv_m(pt.x), beta)
}

/// Fold every row of a width-2 matrix with its twiddle.
pub fn fold(m: &RowMajorMatrix, beta: EF, twiddles: &Vec<M31>) -> (r: Vec<EF>)
    requires
        m.width_s() == 2,
        twiddles@.len() == m.height_s(),
    ensures
        r@.len() == m.height_s(),
        forall|i: int|
            0 <= i < r@.len() ==> (#[trigger] r@[i])@ == row_fold_v(
                m.entry_v(i, 0),
                m.entry_v(i, 1),
                twiddles@[i].val(),
                beta@,
            ),
{
    let h = m.height();
    let mut out: Vec<EF> = Vec::new();
    let mut i: usize = 0;
    while i < h
        invariant
            i <= h,
            h == m.height_s(),
            m.width_s() == 2,
            twiddles@.len() == m.height_s(),
            out@.len() == i,
            forall|j: int|
                0 <= j < i ==> (#[trigger] out@[j])@ == row_fold_v(
                    m.entry_v(j, 0),
                    m.entry_v(j, 1),
                    twiddles@[j].val(),
                    beta@,
                ),
        decreases h - i,
    {
        let lo = m.entry(i, 0);
        let hi = m.entry(i, 1);
        let t = twiddles[i];
        let sum = lo.add(hi);
        let diff = lo.sub(hi).scale(t);
        out.push(sum.add(beta.mul(diff)).halve());
        i += 1;
    }
    out
}

/// The first folding round: twiddles come from the imaginary coordinate of
/// the domain one level above the output size.
pub fn fold_bivariate(m: RowMajorMatrix, beta: EF) -> (r: Vec<EF>)
    requires
        m.width_s() == 2,
        m.height_s() >= 1,
        is_pow2_len(m.height_s()),
        log2_of(m.height_s()) <= 29,
    ensures
        r@.len() == m.height_s(),
        forall|i: int|
            0 <= i < r@.len() ==> (#[trigger] r@[i])@ == row_fold_v(
                m.entry_v(i, 0),
                m.entry_v(i, 1),
                bivariate_twiddle_v(log2_of(m.height_s()), i as nat),
                beta@,
            ),
{
    let h = m.height();
    let log_h = log2_strict(h);
    let domain = CircleDomain::standard(log_h + 1);
    let pts = domain.points_prefix(h);
    let mut coords: Vec<M31> = Vec::new();
    let mut i: usize = 0;
    while i < h
        invariant
            i <= h,
            pts@.len() == h,
            coords@.len() == i,
            domain.log_size() == log_h + 1,
            log_h as nat == log2_of(m.height_s()),
            h == m.height_s(),
            forall|j: int|
                0 <= j < pts@.len() ==> (#[trigger] pts@[j])@ == domain_point_v(
                    (log_h + 1) as nat,
                    j as nat,
                ),
            forall|j: int|
                0 <= j < i ==> (#[trigger] coords@[j]).val() == domain_point_v(
                    (log_h + 1) as nat,
                    j as nat,
                ).y,
        decreases h - i,
    {
        coords.push(pts[i].imag_part());
        i += 1;
    }
    let invs = batch_inverse_or_zero(&coords);
    let twiddles = circle_bitrev_permute(invs.as_slice());
    proof {
        assert forall|k: int| 0 <= k < twiddles@.len() implies (#[trigger] twiddles@[k]).val()
            == bivariate_twiddle_v(log2_of(m.height_s()), k as nat) by {
            crate::bitrev::lemma_cbr_bound(k as nat, log_h as nat);
        };
    }
    fold(&m, beta, &twiddles)
}

/// A strategy marker for circle-FRI folding rounds after the first.
pub struct CircleFriFolder;

impl CircleFriFolder {
    /// A recursive folding round: twiddles come from the real coordinate of
    /// the domain two levels above the output size.
    pub fn fold_matrix(m: RowMajorMatrix, beta: EF) -> (r: Vec<EF>)
        requires
            m.width_s() == 2,
            m.height_s() >= 1,
            is_pow2_len(m.height_s()),
            log2_of(m.height_s()) <= 28,
        ensures
            r@.len() == m.height_s(),
            forall|i: int|
                0 <= i < r@.len() ==> (#[trigger] r@[i])@ == row_fold_v(
                    m.entry_v(i, 0),
                    m.entry_v(i, 1),
                    matrix_twiddle_v(log2_of(m.height_s()), i as nat),
                    beta@,
                ),
    {
        let h = m.height();
        let log_h = log2_strict(h);
        let domain = CircleDomain::standard(log_h + 2);
        let pts = domain.points_prefix(h);
        let mut coords: Vec<M31> = Vec::new();
        let mut i: usize = 0;
        while i < h
            invariant
                i <= h,
                pts@.len() == h,
                coords@.len() == i,
                domain.log_size() == log_h + 2,
                log_h as nat == log2_of(m.height_s()),
                h == m.height_s(),
                forall|j: int|
                    0 <= j < pts@.len() ==> (#[trigger] pts@[j])@ == domain_point_v(
                        (log_h + 2) as nat,
                        j as nat,
                    ),
                forall|j: int|
                    0 <= j < i ==> (#[trigger] coords@[j]).val() == domain_point_v(
                        (log_h + 2) as nat,
                        j as nat,
                    ).x,
            decreases h - i,
        {
            coords.push(pts[i].real_part());
            i += 1;
        }
        let invs = batch_inverse_or_zero(&coords);
        let twiddles = circle_bitrev_permute(invs.as_slice());
        proof {
            assert forall|k: int| 0 <= k < twiddles@.len() implies (#[trigger] twiddles@[k]).val()
                == matrix_twiddle_v(log2_of(m.height_s()), k as nat) by {
                crate::bitrev::lemma_cbr_bound(k as nat, log_h as nat);
            };
        }
        fold(&m, beta, &twiddles)
    }

    /// Recompute the folded value at one output row of a recursive round,
    /// from that row's pair of evaluations alone.
    pub fn fold_row(index: usize, log_height: usize, evals: &[EF], beta: EF) -> (r: EF)
        requires
            evals@.len() == 2,
            log_height <= 28,
            (index as nat) < pow2(log_height as nat),
        ensures
            r@ == fold_row_result_v(index as nat, log_height as nat, evals@[0]@, evals@[1]@, beta@),
    {
        let shift = Point::circle_two_adic_generator(log_height + 3);
        let g = Point::circle_two_adic_generator(log_height + 2);
        let orig_idx = circle_bitrev_idx(index, log_height);
        let pt = shift.mul(g.exp_u64(orig_idx as u64));
        let t = inverse_or_zero(pt.real_part());
        let sum = evals[0].add(evals[1]);
        let diff = evals[0].sub(evals[1]).scale(t);
        sum.add(beta.mul(diff)).halve()
    }
}

/// The single-row fold agrees with the bulk recursive round: for every
/// output log-size, every row index, every evaluation pair and every
/// challenge, what `fold_row` returns is exactly the row value that
/// `fold_matrix` stores at that index — the point recovered from the
/// shifted generator power is the domain point whose inverse real
/// coordinate the bulk round uses as that row's twiddle.
pub proof fn lemma_fold_row_matches_matrix(
    log_height: nat,
    index: nat,
    lo: EfV,
    hi: EfV,
    beta: EfV,
)
    ensures
        fold_row_result_v(index, log_height, lo, hi, beta) == row_fold_v(
            lo,
            hi,
            matrix_twiddle_v(log_height, index),
            beta,
        ),
{
    assert(domain_point_v((log_height + 2) as nat, cbr_v(index, log_height)) == pt_mul_v(
        gen_v((log_height + 3) as nat),
        pt_pow_v(gen_v((log_height + 2) as nat), cbr_v(index, log_height)),
    ));
}

/// The folded row value is an affine function of the challenge: it equals
/// `half_sum + beta * slope`, where `half_sum` is half the row sum and
/// `slope` is half the twiddled difference, and neither depends on `beta`.
/// Two evaluations at distinct challenges therefore determine the value at
/// every challenge by linear interpolation.
pub proof fn lemma_fold_affine_in_beta(lo: EfV, hi: EfV, t: int, beta: EfV)
    ensures
        row_fold_v(lo, hi, t, beta) == ef_add_v(
            ef_halve_v(ef_add_v(lo, hi)),
            ef_mul_v(beta, ef_halve_v(ef_scale_v(t, ef_sub_v(lo, hi)))),
        ),
{
    let s = ef_add_v(lo, hi);
    let d = ef_scale_v(t, ef_sub_v(lo, hi));
    let m = ef_mul_v(beta, d);
    assert(ef_canon(s) && ef_canon(d) && ef_canon(m)) by {
        lemma_mod_bound(lo.a + hi.a, pm());
        lemma_mod_bound(lo.b + hi.b, pm());
        lemma_mod_bound(lo.c + hi.c, pm());
        lemma_mod_bound(t * ef_sub_v(lo, hi).a, pm());
        lemma_mod_bound(t * ef_sub_v(lo, hi).b, pm());
        lemma_mod_bound(t * ef_sub_v(lo, hi).c, pm());
        lemma_mod_bound(beta.a * d.a + 5 * (beta.b * d.c + beta.c * d.b), pm());
        lemma_mod_bound(beta.a * d.b + beta.b * d.a + 5 * (beta.c * d.c), pm());
        lemma_mod_bound(beta.a * d.c + beta.b * d.b + beta.c * d.a, pm());
    };
    crate::ext::lemma_ef_halve_add(s, m);
    crate::ext::lemma_ef_mul_halve(beta, d);
}

/// Folding a constant row returns the constant: the difference term
/// vanishes, and halving undoes the doubled sum. Under any twiddle and any
/// challenge, a constant evaluation vector stays the same constant through
/// a round.
pub proof fn lemma_fold_constant_row(c: EfV, t: int, beta: EfV)
    requires
        ef_canon(c),
    ensures
        row_fold_v(c, c, t, beta) == c,
{
    lemma_canon_mod(0);
    assert(ef_sub_v(c, c) == ef_zero());
    lemma_mul_basics(t);
    assert(ef_scale_v(t, ef_zero()) == ef_zero());
    lemma_mul_basics(beta.a);
    lemma_mul_basics(beta.b);
    lemma_mul_basics(beta.c);
    assert(ef_mul_v(beta, ef_zero()) == ef_zero());
    let s = ef_add_v(c, c);
    lemma_mod_bound(c.a + c.a, pm());
    lemma_mod_bound(c.b + c.b, pm());
    lemma_mod_bound(c.c + c.c, pm());
    lemma_canon_mod(s.a);
    lemma_canon_mod(s.b);
    lemma_canon_mod(s.c);
    assert(ef_add_v(s, ef_zero()) == s);
    lemma_halve_double(c.a);
    lemma_halve_double(c.b);
    lemma_halve_double(c.c);
}

} // verus!
