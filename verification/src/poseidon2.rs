//! The internal-layer diagonal multiplication of the Poseidon2 permutation
//! over the KoalaBear field, for state widths 16 and 24: one table-driven
//! driver applies, to every lane, a small multiple followed by repeated
//! halvings, and the sum pass then adds or subtracts the round sum per lane.

use vstd::prelude::*;
use vstd::arithmetic::div_mod::{lemma_mod_bound, lemma_mod_sub_multiples_vanish, lemma_small_mod};

verus! {

/// The KoalaBear prime `2^31 - 2^24 + 1`.
pub const PK: u32 = 0x7F00_0001;

/// `PK` as a mathematical integer, for use in specifications.
pub open spec fn pk() -> int {
    0x7F00_0001
}

/// Addition modulo `PK`.
pub open spec fn kadd_m(a: int, b: int) -> int {
    (a + b) % pk()
}

/// Subtraction modulo `PK`.
pub open spec fn ksub_m(a: int, b: int) -> int {
    (a - b) % pk()
}

/// Division by two modulo `PK`, for a canonical representative.
pub open spec fn khalve_m(a: int) -> int {
    if a % 2 == 0 {
        a / 2
    } else {
        (a + pk()) / 2
    }
}

/// `k`-fold division by two modulo `PK`.
pub open spec fn khalve_n(a: int, k: nat) -> int
    decreases k,
{
    if k == 0 {
        a
    } else {
        khalve_n(khalve_m(a), (k - 1) as nat)
    }
}

/// An element of the KoalaBear field, kept in canonical form `[0, PK)`.
#[derive(Clone, Copy, PartialEq, Eq, Structural, Debug)]
pub struct KB {
    v: u32,
}

impl KB {
    /// Canonical representatives only.
    #[verifier::type_invariant]
    pub open spec fn wf(self) -> bool {
        0 <= self.val() < pk()
    }

    /// The integer value of this element, in `[0, PK)`.
    pub closed spec fn val(self) -> int {
        self.v as int
    }

    /// Build an element from any `u32`, reducing modulo `PK`.
    pub fn new(x: u32) -> (r: Self)
        ensures
            r.val() == x as int % pk(),
    {
        KB { v: x % PK }
    }

    /// The canonical representative as a machine integer.
    pub fn value(self) -> (r: u32)
        ensures
            r as int == self.val(),
    {
        self.v
    }

    /// Field addition.
    pub fn add(self, rhs: Self) -> (r: Self)
        ensures
            r.val() == kadd_m(self.val(), rhs.val()),
    {
        proof {
            use_type_invariant(self);
            use_type_invariant(rhs);
        }
        let s: u32 = self.v + rhs.v;
        let out: u32 = if s >= PK {
            s - PK
        } else {
            s
        };
        proof {
            if s >= PK {
                lemma_mod_sub_multiples_vanish(s as int, pk());
                lemma_small_mod((s - PK) as nat, pk() as nat);
            } else {
                lemma_small_mod(s as nat, pk() as nat);
            }
        }
        KB { v: out }
    }

    /// Field subtraction.
    pub fn sub(self, rhs: Self) -> (r: Self)
        ensures
            r.val() == ksub_m(self.val(), rhs.val()),
    {
        proof {
            use_type_invariant(self);
            use_type_invariant(rhs);
        }
        let out: u32 = if self.v >= rhs.v {
            self.v - rhs.v
        } else {
            self.v + PK - rhs.v
        };
        proof {
            let d = self.val() - rhs.val();
            if self.v >= rhs.v {
                lemma_small_mod(d as nat, pk() as nat);
            } else {
                lemma_mod_sub_multiples_vanish(d + pk(), pk());
                lemma_small_mod((d + pk()) as nat, pk() as nat);
            }
        }
        KB { v: out }
    }

    /// Multiplication by a small constant factor.
    pub fn mul_small(self, a: u32) -> (r: Self)
        requires
            a <= 4,
        ensures
            r.val() == (a * self.val()) % pk(),
    {
        proof {
            use_type_invariant(self);
            assert((a as int) * (self.v as int) < 17179869184) by (nonlinear_arith)
                requires
                    0 <= a <= 4,
                    0 <= self.v < 4294967296;
        }
        let prod: u64 = (a as u64) * (self.v as u64);
        let out: u32 = (prod % (PK as u64)) as u32;
        proof {
            lemma_mod_bound(prod as int, pk());
        }
        KB { v: out }
    }

    /// Division by two.
    pub fn halve(self) -> (r: Self)
        ensures
            r.val() == khalve_m(self.val()),
    {
        proof {
            use_type_invariant(self);
        }
        let out: u32 = if self.v % 2 == 0 {
            self.v / 2
        } else {
            (self.v + PK) / 2
        };
        KB { v: out }
    }

    /// `k`-fold division by two.
    pub fn halve_n(self, k: u32) -> (r: Self)
        ensures
            r.val() == khalve_n(self.val(), k as nat),
    {
        let mut cur = self;
        let mut j: u32 = 0;
        while j < k
            invariant
                j <= k,
                khalve_n(cur.val(), (k - j) as nat) == khalve_n(self.val(), k as nat),
            decreases k - j,
        {
            proof {
                assert(khalve_n(cur.val(), (k - j) as nat) == khalve_n(
                    khalve_m(cur.val()),
                    (k - j - 1) as nat,
                ));
            }
            cur = cur.halve();
            j += 1;
        }
        cur
    }
}

/// One diagonal entry `sign * mul / 2^shift`: the lane is multiplied by
/// `mul`, halved `shift` times, and then added to (or, where `sub` is set,
/// subtracted from) the round sum.
#[derive(Clone, Copy, PartialEq, Eq, Structural, Debug)]
pub struct DiagEntry {
    pub mul: u32,
    pub shift: u32,
    pub sub: bool,
}

/// What one diagonal entry makes of a lane, before the sum pass.
pub open spec fn diag_entry_val(e: DiagEntry, x: int) -> int {
    khalve_n((e.mul * x) % pk(), e.shift as nat)
}

/// What the sum pass makes of a processed lane.
pub open spec fn sum_entry_val(e: DiagEntry, sum: int, y: int) -> int {
    if e.sub {
        ksub_m(sum, y)
    } else {
        kadd_m(sum, y)
    }
}

/// The diagonal `[2, 1/2, 3, 4, -1/2, -3, -4, 1/2^8, -1/2^8, 1/2^3,
/// -1/2^3, -1/2^4, 1/2^24, -1/2^24]` after the leading unit entry, for the
/// width-16 internal layer (the state's first element is handled by the
/// s-box and is not part of this table).
pub open spec fn diag_table_16() -> Seq<DiagEntry> {
    seq![
        DiagEntry { mul: 1, shift: 0, sub: false },
        DiagEntry { mul: 2, shift: 0, sub: false },
        DiagEntry { mul: 1, shift: 1, sub: false },
        DiagEntry { mul: 3, shift: 0, sub: false },
        DiagEntry { mul: 4, shift: 0, sub: false },
        DiagEntry { mul: 1, shift: 1, sub: true },
        DiagEntry { mul: 3, shift: 0, sub: true },
        DiagEntry { mul: 4, shift: 0, sub: true },
        DiagEntry { mul: 1, shift: 8, sub: false },
        DiagEntry { mul: 1, shift: 8, sub: true },
        DiagEntry { mul: 1, shift: 3, sub: false },
        DiagEntry { mul: 1, shift: 3, sub: true },
        DiagEntry { mul: 1, shift: 4, sub: true },
        DiagEntry { mul: 1, shift: 24, sub: false },
        DiagEntry { mul: 1, shift: 24, sub: true },
    ]
}

/// The corresponding diagonal for the width-24 internal layer.
pub open spec fn diag_table_24() -> Seq<DiagEntry> {
    seq![
        DiagEntry { mul: 1, shift: 0, sub: false },
        DiagEntry { mul: 2, shift: 0, sub: false },
        DiagEntry { mul: 1, shift: 1, sub: false },
        DiagEntry { mul: 3, shift: 0, sub: false },
        DiagEntry { mul: 4, shift: 0, sub: false },
        DiagEntry { mul: 1, shift: 1, sub: true },
        DiagEntry { mul: 3, shift: 0, sub: true },
        DiagEntry { mul: 4, shift: 0, sub: true },
        DiagEntry { mul: 1, shift: 8, sub: false },
        DiagEntry { mul: 1, shift: 8, sub: true },
        DiagEntry { mul: 1, shift: 2, sub: false },
        DiagEntry { mul: 1, shift: 3, sub: false },
        DiagEntry { mul: 1, shift: 3, sub: true },
        DiagEntry { mul: 1, shift: 4, sub: false },
        DiagEntry { mul: 1, shift: 4, sub: true },
        DiagEntry { mul: 1, shift: 5, sub: false },
        DiagEntry { mul: 1, shift: 5, sub: true },
        DiagEntry { mul: 1, shift: 6, sub: false },
        DiagEntry { mul: 1, shift: 6, sub: true },
        DiagEntry { mul: 1, shift: 7, sub: true },
        DiagEntry { mul: 1, shift: 9, sub: true },
        DiagEntry { mul: 1, shift: 24, sub: false },
        DiagEntry { mul: 1, shift: 24, sub: true },
    ]
}

/// The table for a state length, where one is defined.
pub open spec fn diag_table_for(len: nat) -> Seq<DiagEntry> {
    if len == 15 {
        diag_table_16()
    } else {
        diag_table_24()
    }
}

/// Build the width-16 diagonal table.
fn diag_table_16_exec() -> (t: Vec<DiagEntry>)
    ensures
        t@ == diag_table_16(),
{
    let mut t: Vec<DiagEntry> = Vec::new();
    t.push(DiagEntry { mul: 1, shift: 0, sub: false });
    t.push(DiagEntry { mul: 2, shift: 0, sub: false });
    t.push(DiagEntry { mul: 1, shift: 1, sub: false });
    t.push(DiagEntry { mul: 3, shift: 0, sub: false });
    t.push(DiagEntry { mul: 4, shift: 0, sub: false });
    t.push(DiagEntry { mul: 1, shift: 1, sub: true });
    t.push(DiagEntry { mul: 3, shift: 0, sub: true });
    t.push(DiagEntry { mul: 4, shift: 0, sub: true });
    t.push(DiagEntry { mul: 1, shift: 8, sub: false });
    t.push(DiagEntry { mul: 1, shift: 8, sub: true });
    t.push(DiagEntry { mul: 1, shift: 3, sub: false });
    t.push(DiagEntry { mul: 1, shift: 3, sub: true });
    t.push(DiagEntry { mul: 1, shift: 4, sub: true });
    t.push(DiagEntry { mul: 1, shift: 24, sub: false });
    t.push(DiagEntry { mul: 1, shift: 24, sub: true });
    proof {
        assert(t@ =~= diag_table_16());
    }
    t
}

/// Build the width-24 diagonal table.
fn diag_table_24_exec() -> (t: Vec<DiagEntry>)
    ensures
        t@ == diag_table_24(),
{
    let mut t: Vec<DiagEntry> = Vec::new();
    t.push(DiagEntry { mul: 1, shift: 0, sub: false });
    t.push(DiagEntry { mul: 2, shift: 0, sub: false });
    t.push(DiagEntry { mul: 1, shift: 1, sub: false });
    t.push(DiagEntry { mul: 3, shift: 0, sub: false });
    t.push(DiagEntry { mul: 4, shift: 0, sub: false });
    t.push(DiagEntry { mul: 1, shift: 1, sub: true });
    t.push(DiagEntry { mul: 3, shift: 0, sub: true });
    t.push(DiagEntry { mul: 4, shift: 0, sub: true });
    t.push(DiagEntry { mul: 1, shift: 8, sub: false });
    t.push(DiagEntry { mul: 1, shift: 8, sub: true });
    t.push(DiagEntry { mul: 1, shift: 2, sub: false });
    t.push(DiagEntry { mul: 1, shift: 3, sub: false });
    t.push(DiagEntry { mul: 1, shift: 3, sub: true });
    t.push(DiagEntry { mul: 1, shift: 4, sub: false });
    t.push(DiagEntry { mul: 1, shift: 4, sub: true });
    t.push(DiagEntry { mul: 1, shift: 5, sub: false });
    t.push(DiagEntry { mul: 1, shift: 5, sub: true });
    t.push(DiagEntry { mul: 1, shift: 6, sub: false });
    t.push(DiagEntry { mul: 1, shift: 6, sub: true });
    t.push(DiagEntry { mul: 1, shift: 7, sub: true });
    t.push(DiagEntry { mul: 1, shift: 9, sub: true });
    t.push(DiagEntry { mul: 1, shift: 24, sub: false });
    t.push(DiagEntry { mul: 1, shift: 24, sub: true });
    proof {
        assert(t@ =~= diag_table_24());
    }
    t
}

/// Apply each table entry's multiple-and-halvings to its lane.
fn apply_diagonal(state: &mut Vec<KB>, table: &Vec<DiagEntry>)
    requires
        old(state)@.len() == table@.len(),
        forall|i: int| 0 <= i < table@.len() ==> (#[trigger] table@[i]).mul <= 4,
    ensures
        final(state)@.len() == old(state)@.len(),
        forall|i: int|
            0 <= i < old(state)@.len() ==> (#[trigger] final(state)@[i]).val() == diag_entry_val(
                table@[i],
                old(state)@[i].val(),
            ),
{
    let n = state.len();
    let mut i: usize = 0;
    while i < n
        invariant
            i <= n,
            n == old(state)@.len(),
            state@.len() == n,
            table@.len() == n,
            forall|t: int| 0 <= t < table@.len() ==> (#[trigger] table@[t]).mul <= 4,
            forall|t: int| i <= t < n ==> (#[trigger] state@[t]) == old(state)@[t],
            forall|t: int|
                0 <= t < i ==> (#[trigger] state@[t]).val() == diag_entry_val(
                    table@[t],
                    old(state)@[t].val(),
                ),
        decreases n - i,
    {
        let e = table[i];
        let y = state[i].mul_small(e.mul).halve_n(e.shift);
        state[i] = y;
        i += 1;
    }
}

/// Add the round sum to (or subtract each negated lane from) the state.
fn apply_sum(state: &mut Vec<KB>, sum: KB, table: &Vec<DiagEntry>)
    requires
        old(state)@.len() == table@.len(),
    ensures
        final(state)@.len() == old(state)@.len(),
        forall|i: int|
            0 <= i < old(state)@.len() ==> (#[trigger] final(state)@[i]).val() == sum_entry_val(
                table@[i],
                sum.val(),
                old(state)@[i].val(),
            ),
{
    let n = state.len();
    let mut i: usize = 0;
    while i < n
        invariant
            i <= n,
            n == old(state)@.len(),
            state@.len() == n,
            table@.len() == n,
            forall|t: int| i <= t < n ==> (#[trigger] state@[t]) == old(state)@[t],
            forall|t: int|
                0 <= t < i ==> (#[trigger] state@[t]).val() == sum_entry_val(
                    table@[t],
                    sum.val(),
                    old(state)@[t].val(),
                ),
        decreases n - i,
    {
        let e = table[i];
        let y = if e.sub {
            sum.sub(state[i])
        } else {
            sum.add(state[i])
        };
        state[i] = y;
        i += 1;
    }
}

/// The table-driven internal diagonal layer for the KoalaBear field.
pub struct KoalaBearInternalLayerParameters;

impl KoalaBearInternalLayerParameters {
    /// Multiply every lane after the first state element by the magnitude
    /// of its diagonal entry: lane `i` becomes `mul_i * x_i / 2^shift_i`.
    /// The sign of the entry is settled by [`Self::add_sum`].
    pub fn diagonal_mul(state: &mut Vec<KB>)
        requires
            old(state)@.len() == 15 || old(state)@.len() == 23,
        ensures
            final(state)@.len() == old(state)@.len(),
            forall|i: int|
                0 <= i < old(state)@.len() ==> (#[trigger] final(state)@[i]).val()
                    == diag_entry_val(
                    diag_table_for(old(state)@.len())[i],
                    old(state)@[i].val(),
                ),
    {
        let table = if state.len() == 15 {
            diag_table_16_exec()
        } else {
            diag_table_24_exec()
        };
        apply_diagonal(state, &table);
    }

    /// Combine every processed lane with the round sum: lane `i` becomes
    /// `sum + D_i * x_i`, where negated entries subtract from the sum.
    pub fn add_sum(state: &mut Vec<KB>, sum: KB)
        requires
            old(state)@.len() == 15 || old(state)@.len() == 23,
        ensures
            final(state)@.len() == old(state)@.len(),
            forall|i: int|
                0 <= i < old(state)@.len() ==> (#[trigger] final(state)@[i]).val()
                    == sum_entry_val(
                    diag_table_for(old(state)@.len())[i],
                    sum.val(),
                    old(state)@[i].val(),
                ),
    {
        let table = if state.len() == 15 {
            diag_table_16_exec()
        } else {
            diag_table_24_exec()
        };
        apply_sum(state, sum, &table);
    }
}

} // verus!
