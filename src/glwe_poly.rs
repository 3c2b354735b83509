//! A ring polynomial: `n` field coefficients of an element of `F[X] / (X^n + 1)`.

use crate::decompose::{
    all_bits, all_zero, canonical_rows, coeff_constraints, decompose_native, digits,
    eval_decompose_coeff, lemma_all_zero_concat, lemma_coeff_constraints_idle, lemma_coeff_constraints_zero,
    native_digits,
    neg_bits_of, num_limbs, select_seq, to_bits,
};
use crate::field::{canonical, field_neg, fneg, ORDER, NUM_BITS};
use crate::ntt::{ntt_backward, ntt_bw, NttParams};
use crate::vec_arithmetic::{lemma_views_push, vadd, views, vec_add, vec_sub, vsub};
use vstd::prelude::*;

verus! {

#[derive(Debug, Clone)]
pub struct GlwePolyExp {
    pub coeffs: Vec<u64>,
}

/// The polynomial type of the trace-generation path; it is the same type.
pub type GlwePolyNative = GlwePolyExp;

/// The coefficient sequences of a list of polynomials.
pub open spec fn poly_views(v: Seq<GlwePolyExp>) -> Seq<Seq<u64>> {
    v.map_values(|q: GlwePolyExp| q.coeffs@)
}

pub proof fn lemma_poly_views_push(v: Seq<GlwePolyExp>, x: GlwePolyExp)
    ensures
        poly_views(v.push(x)) == poly_views(v).push(x.coeffs@),
{
    assert(poly_views(v.push(x)) =~= poly_views(v).push(x.coeffs@));
}

/// Multiplication by `X^shift` in `F[X] / (X^n + 1)`, for `shift <= n`:
/// coefficients move up by `shift` and those that wrap around change sign.
pub open spec fn rotate_seq(a: Seq<u64>, shift: int) -> Seq<u64> {
    Seq::new(
        a.len(),
        |i: int|
            if i < shift {
                fneg(a[a.len() - shift + i] as int) as u64
            } else {
                a[i - shift]
            },
    )
}

/// The transpose of per-coefficient digit lists: limb `l` holds digit `l` of
/// every coefficient.
pub open spec fn limbs_of(d: Seq<Seq<u64>>, nl: nat) -> Seq<Seq<u64>> {
    Seq::new(nl, |l: int| Seq::new(d.len(), |i: int| d[i][l]))
}

impl GlwePolyExp {
    /// The polynomial has `n` canonical coefficients.
    pub open spec fn wf(&self, n: nat) -> bool {
        self.coeffs@.len() == n && canonical(self.coeffs@)
    }

    /// Number of field elements in a polynomial of dimension `n`.
    pub fn num_targets(n: usize) -> (r: usize)
        ensures
            r == n,
    {
        n
    }

    /// The coefficients.
    pub fn flatten(&self) -> (r: Vec<u64>)
        ensures
            r@ == self.coeffs@,
    {
        self.coeffs.clone()
    }

    /// A polynomial from exactly `n` coefficients.
    pub fn new_from_slice(input: &[u64]) -> (r: GlwePolyExp)
        ensures
            r.coeffs@ == input@,
    {
        GlwePolyExp { coeffs: vstd::slice::slice_to_vec(input) }
    }

    /// The zero polynomial of dimension `n`.
    pub fn dummy_ct(n: usize) -> (r: GlwePolyExp)
        ensures
            r.coeffs@ == Seq::new(n as nat, |i: int| 0u64),
            r.wf(n as nat),
    {
        let coeffs = vec![0u64; n];
        assert(coeffs@ =~= Seq::new(n as nat, |i: int| 0u64));
        GlwePolyExp { coeffs }
    }

    /// Coefficientwise sum.
    pub fn add(&self, other: &GlwePolyExp) -> (r: GlwePolyExp)
        requires
            self.coeffs@.len() == other.coeffs@.len(),
            canonical(self.coeffs@),
            canonical(other.coeffs@),
        ensures
            r.coeffs@ == vadd(self.coeffs@, other.coeffs@),
            r.wf(self.coeffs@.len()),
    {
        GlwePolyExp { coeffs: vec_add(&self.coeffs, &other.coeffs) }
    }

    /// Coefficientwise difference.
    pub fn sub(&self, other: &GlwePolyExp) -> (r: GlwePolyExp)
        requires
            self.coeffs@.len() == other.coeffs@.len(),
            canonical(self.coeffs@),
            canonical(other.coeffs@),
        ensures
            r.coeffs@ == vsub(self.coeffs@, other.coeffs@),
            r.wf(self.coeffs@.len()),
    {
        GlwePolyExp { coeffs: vec_sub(&self.coeffs, &other.coeffs) }
    }

    /// The backward transform of the coefficients.
    pub fn ntt_backward(&self, params: &NttParams) -> (r: GlwePolyExp)
        requires
            params.wf(),
            self.wf(params.n as nat),
        ensures
            r.coeffs@ == ntt_bw(params, self.coeffs@),
            r.wf(params.n as nat),
    {
        GlwePolyExp { coeffs: ntt_backward(params, &self.coeffs) }
    }

    /// Multiplication by `X^shift`, for `shift` at most the dimension.
    pub fn rotate(&self, shift: usize) -> (r: GlwePolyExp)
        requires
            shift <= self.coeffs@.len(),
            canonical(self.coeffs@),
        ensures
            r.coeffs@ == rotate_seq(self.coeffs@, shift as int),
            r.wf(self.coeffs@.len()),
    {
        let n = self.coeffs.len();
        let ghost target = rotate_seq(self.coeffs@, shift as int);
        let mut out: Vec<u64> = Vec::with_capacity(n);
        let mut i: usize = 0;
        while i < n
            invariant
                n == self.coeffs@.len(),
                shift <= n,
                canonical(self.coeffs@),
                i <= n,
                target == rotate_seq(self.coeffs@, shift as int),
                out@ == target.take(i as int),
                canonical(out@),
            decreases n - i,
        {
            if i < shift {
                out.push(field_neg(self.coeffs[n - shift + i]));
            } else {
                out.push(self.coeffs[i - shift]);
            }
            i += 1;
            assert(out@ =~= target.take(i as int));
        }
        assert(out@ =~= target);
        GlwePolyExp { coeffs: out }
    }

    /// Balanced digits of every coefficient, from the bits of each coefficient
    /// and of its negation, gathered into `num_limbs(logb)` limbs.
    pub fn decompose(&self, bits: &Vec<Vec<u64>>, neg_bits: &Vec<Vec<u64>>, logb: usize) -> (r: Vec<Vec<u64>>)
        requires
            bits@.len() == self.coeffs@.len(),
            neg_bits@.len() == self.coeffs@.len(),
            canonical_rows(views(bits@), NUM_BITS as nat),
            canonical_rows(views(neg_bits@), NUM_BITS as nat),
            0 < logb < 64,
        ensures
            views(r@) == limbs_of(
                Seq::new(
                    self.coeffs@.len(),
                    |i: int| native_digits(bits@[i]@, neg_bits@[i]@, logb as nat),
                ),
                num_limbs(logb as nat),
            ),
            r@.len() == num_limbs(logb as nat),
            canonical_rows(views(r@), self.coeffs@.len()),
    {
        let n = self.coeffs.len();
        let ghost d = Seq::new(n as nat, |i: int| native_digits(bits@[i]@, neg_bits@[i]@, logb as nat));
        let mut per_coeff: Vec<Vec<u64>> = Vec::with_capacity(n);
        let mut i: usize = 0;
        while i < n
            invariant
                n == self.coeffs@.len(),
                bits@.len() == n,
                neg_bits@.len() == n,
                canonical_rows(views(bits@), NUM_BITS as nat),
                canonical_rows(views(neg_bits@), NUM_BITS as nat),
                0 < logb < 64,
                i <= n,
                d == Seq::new(n as nat, |i: int| native_digits(bits@[i]@, neg_bits@[i]@, logb as nat)),
                views(per_coeff@) == d.take(i as int),
                canonical_rows(views(per_coeff@), num_limbs(logb as nat)),
            decreases n - i,
        {
            proof {
                assert(views(bits@)[i as int] == bits@[i as int]@);
                assert(views(neg_bits@)[i as int] == neg_bits@[i as int]@);
            }
            let digs = decompose_native(&bits[i], &neg_bits[i], logb);
            proof {
                lemma_views_push(per_coeff@, digs);
            }
            per_coeff.push(digs);
            i += 1;
            assert(views(per_coeff@) =~= d.take(i as int));
        }
        assert(views(per_coeff@) =~= d);
        transpose_digits(&per_coeff, num_limbs_exec(logb))
    }

    /// Balanced digits of every coefficient as [`eval_decompose_coeff`] computes
    /// them, appending its constraints coefficient by coefficient, gathered
    /// into `num_limbs(logb)` limbs.
    pub fn eval_decompose(
        &self,
        constraints: &mut Vec<u64>,
        filter: u64,
        coeffs_bit_dec: &Vec<Vec<u64>>,
        logb: usize,
    ) -> (r: Vec<Vec<u64>>)
        requires
            filter < ORDER,
            canonical(self.coeffs@),
            coeffs_bit_dec@.len() == self.coeffs@.len(),
            canonical_rows(views(coeffs_bit_dec@), NUM_BITS as nat),
            0 < logb < 64,
        ensures
            r@.len() == num_limbs(logb as nat),
            canonical_rows(views(r@), self.coeffs@.len()),
            (forall|i: int| 0 <= i < self.coeffs@.len() ==> all_bits(#[trigger] coeffs_bit_dec@[i]@))
                ==> views(r@) == limbs_of(
                Seq::new(
                    self.coeffs@.len(),
                    |i: int| eval_digits(coeffs_bit_dec@[i]@, logb as nat),
                ),
                num_limbs(logb as nat),
            ),
            final(constraints)@ == old(constraints)@ + poly_constraints(
                filter,
                self.coeffs@,
                views(coeffs_bit_dec@),
                logb as nat,
                self.coeffs@.len(),
            ),
    {
        let ghost start = constraints@;
        let ghost bv = views(coeffs_bit_dec@);
        assert(start + poly_constraints(filter, self.coeffs@, bv, logb as nat, 0) =~= start);
        let n = self.coeffs.len();
        let ghost all = forall|i: int| 0 <= i < n ==> all_bits(#[trigger] coeffs_bit_dec@[i]@);
        let ghost d = Seq::new(n as nat, |i: int| eval_digits(coeffs_bit_dec@[i]@, logb as nat));
        let mut per_coeff: Vec<Vec<u64>> = Vec::with_capacity(n);
        let mut i: usize = 0;
        while i < n
            invariant
                n == self.coeffs@.len(),
                canonical(self.coeffs@),
                filter < ORDER,
                coeffs_bit_dec@.len() == n,
                canonical_rows(views(coeffs_bit_dec@), NUM_BITS as nat),
                0 < logb < 64,
                i <= n,
                all == forall|i: int| 0 <= i < n ==> all_bits(#[trigger] coeffs_bit_dec@[i]@),
                d == Seq::new(n as nat, |i: int| eval_digits(coeffs_bit_dec@[i]@, logb as nat)),
                per_coeff@.len() == i,
                all ==> views(per_coeff@) == d.take(i as int),
                canonical_rows(views(per_coeff@), num_limbs(logb as nat)),
                bv == views(coeffs_bit_dec@),
                constraints@ == start + poly_constraints(filter, self.coeffs@, bv, logb as nat, i as nat),
            decreases n - i,
        {
            proof {
                assert(views(coeffs_bit_dec@)[i as int] == coeffs_bit_dec@[i as int]@);
            }
            let ghost before = constraints@;
            let digs = eval_decompose_coeff(constraints, filter, self.coeffs[i], &coeffs_bit_dec[i], logb);
            proof {
                lemma_views_push(per_coeff@, digs);
                assert(bv[i as int] == coeffs_bit_dec@[i as int]@);
                assert(constraints@ =~= start + poly_constraints(
                    filter,
                    self.coeffs@,
                    bv,
                    logb as nat,
                    (i + 1) as nat,
                ));
            }
            per_coeff.push(digs);
            i += 1;
            proof {
                if all {
                    assert(all_bits(coeffs_bit_dec@[i - 1]@));
                    assert(views(per_coeff@) =~= d.take(i as int));
                }
            }
        }
        proof {
            if all {
                assert(views(per_coeff@) =~= d);
            }
        }
        transpose_digits(&per_coeff, num_limbs_exec(logb))
    }
}

/// The constraints that [`GlwePolyExp::eval_decompose`] appends for the first
/// `i` coefficients, coefficient after coefficient.
pub open spec fn poly_constraints(
    filter: u64,
    coeffs: Seq<u64>,
    bits: Seq<Seq<u64>>,
    logb: nat,
    i: nat,
) -> Seq<u64>
    decreases i,
{
    if i == 0 {
        Seq::empty()
    } else {
        poly_constraints(filter, coeffs, bits, logb, (i - 1) as nat) + coeff_constraints(
            filter,
            coeffs[i - 1],
            bits[i - 1],
            logb,
        )
    }
}

/// The constraints of a polynomial hold on the bits of its coefficients.
pub proof fn lemma_poly_constraints_zero(
    filter: u64,
    coeffs: Seq<u64>,
    bits: Seq<Seq<u64>>,
    logb: nat,
    i: nat,
)
    requires
        i <= coeffs.len(),
        i <= bits.len(),
        canonical(coeffs),
        forall|j: int| 0 <= j < i ==> #[trigger] bits[j] == to_bits(coeffs[j] as int, NUM_BITS as nat),
    ensures
        all_zero(poly_constraints(filter, coeffs, bits, logb, i)),
    decreases i,
{
    if i > 0 {
        lemma_poly_constraints_zero(filter, coeffs, bits, logb, (i - 1) as nat);
        assert(bits[i - 1] == to_bits(coeffs[i - 1] as int, NUM_BITS as nat));
        lemma_coeff_constraints_zero(filter, coeffs[i - 1], logb);
        lemma_all_zero_concat(
            poly_constraints(filter, coeffs, bits, logb, (i - 1) as nat),
            coeff_constraints(filter, coeffs[i - 1], bits[i - 1], logb),
        );
    }
}

/// With the filter off and all bits zero, the constraints of a polynomial hold.
pub proof fn lemma_poly_constraints_idle(coeffs: Seq<u64>, bits: Seq<Seq<u64>>, logb: nat, i: nat)
    requires
        i <= coeffs.len(),
        i <= bits.len(),
        forall|j: int| 0 <= j < i ==> (#[trigger] bits[j]).len() == NUM_BITS,
        forall|j: int, t: int| 0 <= j < i && 0 <= t < NUM_BITS ==> #[trigger] bits[j][t] == 0,
    ensures
        all_zero(poly_constraints(0, coeffs, bits, logb, i)),
    decreases i,
{
    if i > 0 {
        lemma_poly_constraints_idle(coeffs, bits, logb, (i - 1) as nat);
        assert(bits[i - 1].len() == NUM_BITS);
        assert forall|t: int| 0 <= t < bits[i - 1].len() implies #[trigger] bits[i - 1][t] == 0 by {}
        lemma_coeff_constraints_idle(coeffs[i - 1], bits[i - 1], logb);
        lemma_all_zero_concat(
            poly_constraints(0, coeffs, bits, logb, (i - 1) as nat),
            coeff_constraints(0, coeffs[i - 1], bits[i - 1], logb),
        );
    }
}

/// The digits that [`eval_decompose_coeff`] returns for the bits `s` of a coefficient.
pub open spec fn eval_digits(s: Seq<u64>, logb: nat) -> Seq<u64> {
    digits(select_seq(s[63], neg_bits_of(s), s), s[63], logb)
}

/// `num_limbs(logb)` as a machine integer.
pub fn num_limbs_exec(logb: usize) -> (r: usize)
    requires
        0 < logb < 64,
    ensures
        r == num_limbs(logb as nat),
{
    (NUM_BITS + logb - 1) / logb
}

/// Gathers digit `l` of every coefficient into limb `l`, for `l < nl`.
fn transpose_digits(per_coeff: &Vec<Vec<u64>>, nl: usize) -> (r: Vec<Vec<u64>>)
    requires
        canonical_rows(views(per_coeff@), nl as nat),
    ensures
        views(r@) == limbs_of(views(per_coeff@), nl as nat),
        r@.len() == nl,
        canonical_rows(views(r@), per_coeff@.len()),
{
    let ghost target = limbs_of(views(per_coeff@), nl as nat);
    let mut acc: Vec<Vec<u64>> = Vec::with_capacity(nl);
    let mut l: usize = 0;
    while l < nl
        invariant
            canonical_rows(views(per_coeff@), nl as nat),
            l <= nl,
            target == limbs_of(views(per_coeff@), nl as nat),
            views(acc@) == target.take(l as int),
            canonical_rows(views(acc@), per_coeff@.len()),
        decreases nl - l,
    {
        let mut limb: Vec<u64> = Vec::with_capacity(per_coeff.len());
        let mut i: usize = 0;
        while i < per_coeff.len()
            invariant
                canonical_rows(views(per_coeff@), nl as nat),
                l < nl,
                i <= per_coeff@.len(),
                target == limbs_of(views(per_coeff@), nl as nat),
                limb@ == target[l as int].take(i as int),
                canonical(limb@),
            decreases per_coeff@.len() - i,
        {
            proof {
                assert(views(per_coeff@)[i as int] == per_coeff@[i as int]@);
                assert(per_coeff@[i as int]@[l as int] < ORDER);
            }
            limb.push(per_coeff[i][l]);
            i += 1;
            assert(limb@ =~= target[l as int].take(i as int));
        }
        assert(limb@ =~= target[l as int]);
        proof {
            lemma_views_push(acc@, limb);
        }
        acc.push(limb);
        l += 1;
        assert(views(acc@) =~= target.take(l as int));
    }
    assert(views(acc@) =~= target);
    acc
}

} // verus!
