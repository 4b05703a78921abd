//! Standard-position circle domains: the coset of the order-`2^log_n`
//! subgroup shifted by the order-`2^(log_n + 1)` generator, listed in
//! generator order (point `k` is `shift * gen^k`).

use vstd::prelude::*;
use vstd::arithmetic::power2::pow2;

use crate::bitrev::pow2_exec;
use crate::point::{gen_v, lemma_gen_canon, lemma_pt_mul_assoc, lemma_pt_mul_one, lemma_pt_pow_canon,
    pt_canon, pt_mul_v, pt_one, pt_pow_v, Point, PtV};

verus! {

/// The `k`th point of the standard domain of log-size `log_n`:
/// `shift * gen^k`, with `shift` one two-adic level above `gen`.
pub open spec fn domain_point_v(log_n: nat, k: nat) -> PtV {
    pt_mul_v(gen_v((log_n + 1) as nat), pt_pow_v(gen_v(log_n), k))
}

/// A standard-position coset of the circle group, of size `2^log_n`.
#[derive(Clone, Copy, Debug)]
pub struct CircleDomain {
    log_n: usize,
    shift: Point,
    gen: Point,
}

impl CircleDomain {
    /// The shift sits one two-adic level above the subgroup generator.
    #[verifier::type_invariant]
    closed spec fn wf(self) -> bool {
        self.log_n <= 30 && self.shift@ == gen_v((self.log_n + 1) as nat) && self.gen@ == gen_v(
            self.log_n as nat,
        )
    }

    /// The log2 of the domain's size.
    pub closed spec fn log_size(self) -> nat {
        self.log_n as nat
    }

    /// The standard domain of size `2^log_n`.
    pub fn standard(log_n: usize) -> (d: Self)
        requires
            log_n <= 30,
        ensures
            d.log_size() == log_n,
    {
        let shift = Point::circle_two_adic_generator(log_n + 1);
        let gen = Point::circle_two_adic_generator(log_n);
        CircleDomain { log_n, shift, gen }
    }

    /// The log2 of the domain's size, as a machine integer.
    pub fn log_n(&self) -> (r: usize)
        ensures
            r as nat == self.log_size(),
            r <= 30,
    {
        proof {
            use_type_invariant(self);
        }
        self.log_n
    }

    /// The first `count` domain points, in generator order.
    pub fn points_prefix(&self, count: usize) -> (r: Vec<Point>)
        ensures
            r@.len() == count,
            forall|i: int|
                0 <= i < count ==> (#[trigger] r@[i])@ == domain_point_v(
                    self.log_size(),
                    i as nat,
                ),
    {
        proof {
            use_type_invariant(self);
        }
        let ghost lg = self.log_size();
        let mut out: Vec<Point> = Vec::new();
        let mut p = self.shift;
        let mut k: usize = 0;
        proof {
            lemma_gen_canon((lg + 1) as nat);
            lemma_pt_mul_one(gen_v((lg + 1) as nat));
            assert(pt_pow_v(gen_v(lg), 0) == pt_one());
            assert(p@ == domain_point_v(lg, 0));
        }
        while k < count
            invariant
                k <= count,
                out@.len() == k,
                self.wf(),
                lg == self.log_size(),
                p@ == domain_point_v(lg, k as nat),
                forall|i: int|
                    0 <= i < k ==> (#[trigger] out@[i])@ == domain_point_v(lg, i as nat),
            decreases count - k,
        {
            out.push(p);
            proof {
                lemma_pt_mul_assoc(gen_v((lg + 1) as nat), pt_pow_v(gen_v(lg), k as nat), gen_v(lg));
                assert(pt_pow_v(gen_v(lg), (k + 1) as nat) == pt_mul_v(
                    pt_pow_v(gen_v(lg), k as nat),
                    gen_v(lg),
                ));
            }
            p = p.mul(self.gen);
            k += 1;
        }
        out
    }

    /// All `2^log_n` domain points, in generator order.
    pub fn points(&self) -> (r: Vec<Point>)
        ensures
            r@.len() == pow2(self.log_size()),
            forall|i: int|
                0 <= i < r@.len() ==> (#[trigger] r@[i])@ == domain_point_v(
                    self.log_size(),
                    i as nat,
                ),
    {
        proof {
            use_type_invariant(self);
        }
        let n = pow2_exec(self.log_n);
        self.points_prefix(n)
    }
}

} // verus!
