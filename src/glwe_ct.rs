//! A GLWE ciphertext: `k` ring polynomials of one dimension.

use crate::decompose::{all_bits, canonical_rows, to_bits};
use crate::field::{canonical, field_neg, fneg, NUM_BITS};
use crate::glwe_poly::{lemma_poly_views_push, poly_views, GlwePolyExp};
use crate::ntt::{ntt_bw, NttParams};
use crate::vec_arithmetic::{vadd, vsub};
use vstd::prelude::*;

verus! {

#[derive(Debug, Clone)]
pub struct GlweCtExp {
    pub polys: Vec<GlwePolyExp>,
}

/// The ciphertext type of the trace-generation path; it is the same type.
pub type GlweCtNative = GlweCtExp;

impl View for GlweCtExp {
    type V = Seq<Seq<u64>>;

    /// The coefficient sequences of the polynomials.
    open spec fn view(&self) -> Seq<Seq<u64>> {
        poly_views(self.polys@)
    }
}

/// Polynomialwise sum.
pub open spec fn ct_add(a: Seq<Seq<u64>>, b: Seq<Seq<u64>>) -> Seq<Seq<u64>> {
    Seq::new(a.len(), |i: int| vadd(a[i], b[i]))
}

/// Polynomialwise difference.
pub open spec fn ct_sub(a: Seq<Seq<u64>>, b: Seq<Seq<u64>>) -> Seq<Seq<u64>> {
    Seq::new(a.len(), |i: int| vsub(a[i], b[i]))
}

/// The backward transform of every polynomial.
pub open spec fn ct_ntt_bw(params: &NttParams, a: Seq<Seq<u64>>) -> Seq<Seq<u64>> {
    Seq::new(a.len(), |i: int| ntt_bw(params, a[i]))
}

/// The first `k` sequences of `v` one after another.
pub open spec fn concat(v: Seq<Seq<u64>>, k: nat) -> Seq<u64>
    decreases k,
{
    if k == 0 {
        Seq::empty()
    } else {
        concat(v, (k - 1) as nat) + v[k - 1]
    }
}

pub proof fn lemma_concat_len(v: Seq<Seq<u64>>, k: nat, n: nat)
    requires
        k <= v.len(),
        forall|i: int| 0 <= i < v.len() ==> (#[trigger] v[i]).len() == n,
    ensures
        concat(v, k).len() == k * n,
    decreases k,
{
    if k == 0 {
        assert(0 * n == 0) by (nonlinear_arith);
    } else {
        let km1 = (k - 1) as nat;
        lemma_concat_len(v, km1, n);
        assert(v[k - 1].len() == n);
        assert(km1 * n + n == k * n) by (nonlinear_arith)
            requires
                km1 + 1 == k,
        ;
    }
}

/// The 64 bits of `number`, least significant first.
pub fn decimal_to_binary(number: u64) -> (r: Vec<u64>)
    ensures
        r@ == to_bits(number as int, NUM_BITS as nat),
        r@.len() == NUM_BITS,
        all_bits(r@),
        canonical(r@),
{
    let mut binary: Vec<u64> = Vec::with_capacity(NUM_BITS);
    let mut num: u64 = number;
    let mut i: usize = 0;
    while i < NUM_BITS
        invariant
            i <= NUM_BITS,
            binary@.len() == i,
            all_bits(binary@),
            canonical(binary@),
            binary@ + to_bits(num as int, (NUM_BITS - i) as nat) == to_bits(number as int, NUM_BITS as nat),
        decreases NUM_BITS - i,
    {
        let ghost before = binary@;
        let bit = num % 2;
        binary.push(bit);
        assert(to_bits(num as int, (NUM_BITS - i) as nat) == seq![bit] + to_bits(num as int / 2, (NUM_BITS - i - 1) as nat));
        num = num / 2;
        i += 1;
        assert(binary@ + to_bits(num as int, (NUM_BITS - i) as nat) =~= before + (seq![bit] + to_bits(
            (num * 2 + bit) as int / 2,
            (NUM_BITS - i) as nat,
        )));
    }
    assert(to_bits(num as int, 0) =~= Seq::<u64>::empty());
    assert(binary@ + Seq::<u64>::empty() =~= binary@);
    binary
}

impl GlweCtExp {
    /// `k` polynomials of `n` canonical coefficients each.
    pub open spec fn wf(&self, n: nat, k: nat) -> bool {
        self@.len() == k && canonical_rows(self@, n)
    }

    /// Number of field elements in a ciphertext of `k` polynomials of dimension `n`.
    pub fn num_targets(n: usize, k: usize) -> (r: usize)
        requires
            k * n <= usize::MAX,
        ensures
            r == k * n,
    {
        k * n
    }

    /// The coefficients of all polynomials, one polynomial after another.
    pub fn flatten(&self) -> (r: Vec<u64>)
        ensures
            r@ == concat(self@, self@.len()),
    {
        let mut out: Vec<u64> = Vec::new();
        let mut i: usize = 0;
        while i < self.polys.len()
            invariant
                i <= self@.len(),
                out@ == concat(self@, i as nat),
            decreases self@.len() - i,
        {
            let f = self.polys[i].flatten();
            let mut j: usize = 0;
            let ghost before = out@;
            while j < f.len()
                invariant
                    j <= f@.len(),
                    out@ == before + f@.take(j as int),
                decreases f@.len() - j,
            {
                out.push(f[j]);
                j += 1;
                assert(out@ =~= before + f@.take(j as int));
            }
            assert(f@.take(j as int) =~= f@);
            assert(self@[i as int] == self.polys@[i as int].coeffs@);
            i += 1;
        }
        out
    }

    /// `k` polynomials read one after another from exactly `k * n` coefficients.
    pub fn new_from_slice(input: &[u64], n: usize, k: usize) -> (r: GlweCtExp)
        requires
            input@.len() == k * n,
        ensures
            r@ == Seq::new(k as nat, |i: int| input@.subrange(i * n, i * n + n)),
    {
        let ghost target = Seq::new(k as nat, |i: int| input@.subrange(i * n, i * n + n));
        let mut polys: Vec<GlwePolyExp> = Vec::with_capacity(k);
        let mut i: usize = 0;
        let total = input.len();
        while i < k
            invariant
                input@.len() == k * n,
                total == input@.len(),
                i <= k,
                target == Seq::new(k as nat, |i: int| input@.subrange(i * n, i * n + n)),
                poly_views(polys@) == target.take(i as int),
            decreases k - i,
        {
            assert(i * n + n <= k * n) by (nonlinear_arith)
                requires
                    i < k,
            ;
            assert((i * n) as int + n as int <= input@.len());
            let start: usize = i * n;
            let part = vstd::slice::slice_subrange(input, start, start + n);
            let q = GlwePolyExp::new_from_slice(part);
            proof {
                lemma_poly_views_push(polys@, q);
            }
            polys.push(q);
            i += 1;
            assert(poly_views(polys@) =~= target.take(i as int));
        }
        let r = GlweCtExp { polys };
        assert(r@ =~= target);
        r
    }

    /// The zero ciphertext of `k` polynomials of dimension `n`.
    pub fn dummy_ct(n: usize, k: usize) -> (r: GlweCtExp)
        ensures
            r@ == Seq::new(k as nat, |i: int| Seq::new(n as nat, |j: int| 0u64)),
            r.wf(n as nat, k as nat),
    {
        let ghost target = Seq::new(k as nat, |i: int| Seq::new(n as nat, |j: int| 0u64));
        let mut polys: Vec<GlwePolyExp> = Vec::with_capacity(k);
        let mut i: usize = 0;
        while i < k
            invariant
                i <= k,
                target == Seq::new(k as nat, |i: int| Seq::new(n as nat, |j: int| 0u64)),
                poly_views(polys@) == target.take(i as int),
            decreases k - i,
        {
            let q = GlwePolyExp::dummy_ct(n);
            proof {
                lemma_poly_views_push(polys@, q);
            }
            polys.push(q);
            i += 1;
            assert(poly_views(polys@) =~= target.take(i as int));
        }
        let r = GlweCtExp { polys };
        assert(r@ =~= target);
        r
    }

    /// A copy of the ciphertext.
    pub fn copy(&self) -> (r: GlweCtExp)
        ensures
            r@ == self@,
    {
        let mut polys: Vec<GlwePolyExp> = Vec::with_capacity(self.polys.len());
        let mut i: usize = 0;
        while i < self.polys.len()
            invariant
                i <= self@.len(),
                poly_views(polys@) == self@.take(i as int),
            decreases self@.len() - i,
        {
            let q = GlwePolyExp { coeffs: self.polys[i].coeffs.clone() };
            proof {
                lemma_poly_views_push(polys@, q);
            }
            polys.push(q);
            i += 1;
            assert(poly_views(polys@) =~= self@.take(i as int));
        }
        let r = GlweCtExp { polys };
        assert(r@ =~= self@);
        r
    }

    /// Polynomialwise sum.
    pub fn add(&self, other: &GlweCtExp) -> (r: GlweCtExp)
        requires
            self@.len() == other@.len(),
            self@.len() > 0,
            canonical_rows(self@, self@[0].len()),
            canonical_rows(other@, self@[0].len()),
        ensures
            r@ == ct_add(self@, other@),
            r.wf(self@[0].len(), self@.len()),
    {
        let ghost n = self@[0].len();
        let ghost target = ct_add(self@, other@);
        let mut polys: Vec<GlwePolyExp> = Vec::with_capacity(self.polys.len());
        let mut i: usize = 0;
        while i < self.polys.len()
            invariant
                self@.len() == other@.len(),
                canonical_rows(self@, n),
                canonical_rows(other@, n),
                i <= self@.len(),
                target == ct_add(self@, other@),
                poly_views(polys@) == target.take(i as int),
                canonical_rows(poly_views(polys@), n),
            decreases self@.len() - i,
        {
            assert(self@[i as int] == self.polys@[i as int].coeffs@);
            assert(other@[i as int] == other.polys@[i as int].coeffs@);
            let q = self.polys[i].add(&other.polys[i]);
            proof {
                lemma_poly_views_push(polys@, q);
            }
            polys.push(q);
            i += 1;
            assert(poly_views(polys@) =~= target.take(i as int));
        }
        let r = GlweCtExp { polys };
        assert(r@ =~= target);
        r
    }

    /// Polynomialwise difference.
    pub fn sub(&self, other: &GlweCtExp) -> (r: GlweCtExp)
        requires
            self@.len() == other@.len(),
            self@.len() > 0,
            canonical_rows(self@, self@[0].len()),
            canonical_rows(other@, self@[0].len()),
        ensures
            r@ == ct_sub(self@, other@),
            r.wf(self@[0].len(), self@.len()),
    {
        let ghost n = self@[0].len();
        let ghost target = ct_sub(self@, other@);
        let mut polys: Vec<GlwePolyExp> = Vec::with_capacity(self.polys.len());
        let mut i: usize = 0;
        while i < self.polys.len()
            invariant
                self@.len() == other@.len(),
                canonical_rows(self@, n),
                canonical_rows(other@, n),
                i <= self@.len(),
                target == ct_sub(self@, other@),
                poly_views(polys@) == target.take(i as int),
                canonical_rows(poly_views(polys@), n),
            decreases self@.len() - i,
        {
            assert(self@[i as int] == self.polys@[i as int].coeffs@);
            assert(other@[i as int] == other.polys@[i as int].coeffs@);
            let q = self.polys[i].sub(&other.polys[i]);
            proof {
                lemma_poly_views_push(polys@, q);
            }
            polys.push(q);
            i += 1;
            assert(poly_views(polys@) =~= target.take(i as int));
        }
        let r = GlweCtExp { polys };
        assert(r@ =~= target);
        r
    }

    /// The backward transform of every polynomial.
    pub fn ntt_backward(&self, params: &NttParams) -> (r: GlweCtExp)
        requires
            params.wf(),
            canonical_rows(self@, params.n as nat),
        ensures
            r@ == ct_ntt_bw(params, self@),
            r.wf(params.n as nat, self@.len()),
    {
        let ghost target = ct_ntt_bw(params, self@);
        let mut polys: Vec<GlwePolyExp> = Vec::with_capacity(self.polys.len());
        let mut i: usize = 0;
        while i < self.polys.len()
            invariant
                params.wf(),
                canonical_rows(self@, params.n as nat),
                i <= self@.len(),
                target == ct_ntt_bw(params, self@),
                poly_views(polys@) == target.take(i as int),
                canonical_rows(poly_views(polys@), params.n as nat),
            decreases self@.len() - i,
        {
            assert(self@[i as int] == self.polys@[i as int].coeffs@);
            let q = self.polys[i].ntt_backward(params);
            proof {
                lemma_poly_views_push(polys@, q);
            }
            polys.push(q);
            i += 1;
            assert(poly_views(polys@) =~= target.take(i as int));
        }
        let r = GlweCtExp { polys };
        assert(r@ =~= target);
        r
    }

    /// The bits of every coefficient: entry `[i][j]` holds the 64 bits of
    /// coefficient `j` of polynomial `i`.
    pub fn get_pos_bit_dec(&self) -> (r: Vec<Vec<Vec<u64>>>)
        ensures
            r@.len() == self@.len(),
            forall|i: int|
                0 <= i < self@.len() ==> (#[trigger] r@[i])@.len() == self@[i].len() && forall|j: int|
                    0 <= j < self@[i].len() ==> (#[trigger] r@[i]@[j])@ == to_bits(
                        self@[i][j] as int,
                        NUM_BITS as nat,
                    ),
    {
        let mut out: Vec<Vec<Vec<u64>>> = Vec::with_capacity(self.polys.len());
        let mut i: usize = 0;
        while i < self.polys.len()
            invariant
                i <= self@.len(),
                out@.len() == i,
                forall|a: int|
                    0 <= a < i ==> (#[trigger] out@[a])@.len() == self@[a].len() && forall|j: int|
                        0 <= j < self@[a].len() ==> (#[trigger] out@[a]@[j])@ == to_bits(
                            self@[a][j] as int,
                            NUM_BITS as nat,
                        ),
            decreases self@.len() - i,
        {
            let coeffs = &self.polys[i].coeffs;
            assert(self@[i as int] == coeffs@);
            let mut row: Vec<Vec<u64>> = Vec::with_capacity(coeffs.len());
            let mut j: usize = 0;
            while j < coeffs.len()
                invariant
                    j <= coeffs@.len(),
                    row@.len() == j,
                    forall|b: int|
                        0 <= b < j ==> (#[trigger] row@[b])@ == to_bits(coeffs@[b] as int, NUM_BITS as nat),
                decreases coeffs@.len() - j,
            {
                row.push(decimal_to_binary(coeffs[j]));
                j += 1;
            }
            out.push(row);
            i += 1;
        }
        out
    }

    /// The bits of the negation of every coefficient.
    pub fn get_neg_bit_dec(&self) -> (r: Vec<Vec<Vec<u64>>>)
        requires
            self@.len() > 0,
            canonical_rows(self@, self@[0].len()),
        ensures
            r@.len() == self@.len(),
            forall|i: int|
                0 <= i < self@.len() ==> (#[trigger] r@[i])@.len() == self@[i].len() && forall|j: int|
                    0 <= j < self@[i].len() ==> (#[trigger] r@[i]@[j])@ == to_bits(
                        fneg(self@[i][j] as int),
                        NUM_BITS as nat,
                    ),
    {
        let ghost n = self@[0].len();
        let mut out: Vec<Vec<Vec<u64>>> = Vec::with_capacity(self.polys.len());
        let mut i: usize = 0;
        while i < self.polys.len()
            invariant
                canonical_rows(self@, n),
                i <= self@.len(),
                out@.len() == i,
                forall|a: int|
                    0 <= a < i ==> (#[trigger] out@[a])@.len() == self@[a].len() && forall|j: int|
                        0 <= j < self@[a].len() ==> (#[trigger] out@[a]@[j])@ == to_bits(
                            fneg(self@[a][j] as int),
                            NUM_BITS as nat,
                        ),
            decreases self@.len() - i,
        {
            let coeffs = &self.polys[i].coeffs;
            assert(self@[i as int] == coeffs@);
            assert(canonical(coeffs@));
            let mut row: Vec<Vec<u64>> = Vec::with_capacity(coeffs.len());
            let mut j: usize = 0;
            while j < coeffs.len()
                invariant
                    canonical(coeffs@),
                    j <= coeffs@.len(),
                    row@.len() == j,
                    forall|b: int|
                        0 <= b < j ==> (#[trigger] row@[b])@ == to_bits(fneg(coeffs@[b] as int), NUM_BITS as nat),
                decreases coeffs@.len() - j,
            {
                let neg = field_neg(coeffs[j]);
                row.push(decimal_to_binary(neg));
                j += 1;
            }
            out.push(row);
            i += 1;
        }
        out
    }
}

} // verus!
