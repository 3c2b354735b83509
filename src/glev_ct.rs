//! A GLEV ciphertext: `ell` GLWE ciphertexts, and the gadget multiplication of
//! a polynomial's digit limbs against one of its rows.

use crate::decompose::{all_bits, canonical_rows, native_digits, num_limbs};
use crate::field::{canonical, ORDER, NUM_BITS};
use crate::glwe_ct::{concat, GlweCtExp};
use crate::glwe_poly::{
    eval_digits, limbs_of, lemma_poly_views_push, poly_constraints, poly_views, GlwePolyExp,
};
use crate::ntt::{ntt_forward, ntt_fw, NttParams};
use crate::vec_arithmetic::{lemma_views_push, vec_inner, views, vinner};
use vstd::prelude::*;

verus! {

#[derive(Debug, Clone)]
pub struct GlevCtExp {
    pub glwe_cts: Vec<GlweCtExp>,
}

/// The ciphertext type of the trace-generation path; it is the same type.
pub type GlevCtNative = GlevCtExp;

/// The views of a list of GLWE ciphertexts.
pub open spec fn glwe_views(v: Seq<GlweCtExp>) -> Seq<Seq<Seq<u64>>> {
    v.map_values(|c: GlweCtExp| c@)
}

pub proof fn lemma_glwe_views_push(v: Seq<GlweCtExp>, x: GlweCtExp)
    ensures
        glwe_views(v.push(x)) == glwe_views(v).push(x@),
{
    assert(glwe_views(v.push(x)) =~= glwe_views(v).push(x@));
}

impl View for GlevCtExp {
    type V = Seq<Seq<Seq<u64>>>;

    /// The views of the GLWE ciphertexts.
    open spec fn view(&self) -> Seq<Seq<Seq<u64>>> {
        glwe_views(self.glwe_cts@)
    }
}

/// Polynomial `index` of every GLWE ciphertext of `g`.
pub open spec fn row(g: Seq<Seq<Seq<u64>>>, index: int) -> Seq<Seq<u64>> {
    Seq::new(g.len(), |l: int| g[l][index])
}

/// `ell` GLWE ciphertexts of `k` polynomials of `n` canonical coefficients.
pub open spec fn glev_wf(g: Seq<Seq<Seq<u64>>>, n: nat, k: nat, ell: nat) -> bool {
    &&& g.len() == ell
    &&& forall|l: int| 0 <= l < ell ==> (#[trigger] g[l]).len() == k && canonical_rows(g[l], n)
}

/// The gadget product of the limbs against `g`: the top `ell` limbs are
/// transformed forward, and slot `index` of the result is their inner product
/// with row `index` of `g`.
pub open spec fn glev_mul(params: &NttParams, g: Seq<Seq<Seq<u64>>>, limbs: Seq<Seq<u64>>, k: nat) -> Seq<
    Seq<u64>,
> {
    let ell = g.len();
    let hat = Seq::new(ell, |l: int| ntt_fw(params, limbs[limbs.len() - ell + l]));
    Seq::new(k, |index: int| vinner(hat, row(g, index), ell, params.n as nat))
}

impl GlevCtExp {
    pub open spec fn wf(&self, n: nat, k: nat, ell: nat) -> bool {
        glev_wf(self@, n, k, ell)
    }

    /// Number of field elements in a GLEV ciphertext.
    pub fn num_targets(n: usize, k: usize, ell: usize) -> (r: usize)
        requires
            k * n * ell <= usize::MAX,
        ensures
            r == k * n * ell,
    {
        assert(k * n <= k * n * ell || ell == 0) by (nonlinear_arith);
        if ell == 0 {
            assert(k * n * ell == 0) by (nonlinear_arith)
                requires
                    ell == 0,
            ;
            0
        } else {
            k * n * ell
        }
    }

    /// Polynomial `index` of every GLWE ciphertext.
    pub fn get_row(&self, index: usize) -> (r: Vec<Vec<u64>>)
        requires
            forall|l: int| 0 <= l < self@.len() ==> index < (#[trigger] self@[l]).len(),
        ensures
            views(r@) == row(self@, index as int),
    {
        let ghost target = row(self@, index as int);
        let mut out: Vec<Vec<u64>> = Vec::with_capacity(self.glwe_cts.len());
        let mut l: usize = 0;
        while l < self.glwe_cts.len()
            invariant
                forall|l: int| 0 <= l < self@.len() ==> index < (#[trigger] self@[l]).len(),
                l <= self@.len(),
                target == row(self@, index as int),
                views(out@) == target.take(l as int),
            decreases self@.len() - l,
        {
            assert(self@[l as int] == self.glwe_cts@[l as int]@);
            assert(self@[l as int][index as int] == self.glwe_cts@[l as int].polys@[index as int].coeffs@);
            let c = self.glwe_cts[l].polys[index].coeffs.clone();
            proof {
                lemma_views_push(out@, c);
            }
            out.push(c);
            l += 1;
            assert(views(out@) =~= target.take(l as int));
        }
        assert(views(out@) =~= target);
        out
    }

    /// The coefficients of all GLWE ciphertexts, one after another.
    pub fn flatten(&self) -> (r: Vec<u64>)
        ensures
            r@ == concat(Seq::new(self@.len(), |l: int| concat(self@[l], self@[l].len())), self@.len()),
    {
        let ghost parts = Seq::new(self@.len(), |l: int| concat(self@[l], self@[l].len()));
        let mut out: Vec<u64> = Vec::new();
        let mut l: usize = 0;
        while l < self.glwe_cts.len()
            invariant
                l <= self@.len(),
                parts == Seq::new(self@.len(), |l: int| concat(self@[l], self@[l].len())),
                out@ == concat(parts, l as nat),
            decreases self@.len() - l,
        {
            assert(self@[l as int] == self.glwe_cts@[l as int]@);
            let f = self.glwe_cts[l].flatten();
            let mut j: usize = 0;
            let ghost before = out@;
            while j < f.len()
                invariant
                    j <= f@.len(),
                    out@ == before + f@.take(j as int),
                decreases f@.len() - j,
            {
                out.push(f[j]);
                j += 1;
                assert(out@ =~= before + f@.take(j as int));
            }
            assert(f@.take(j as int) =~= f@);
            l += 1;
        }
        out
    }

    /// `ell` zero GLWE ciphertexts.
    pub fn dummy_ct(n: usize, k: usize, ell: usize) -> (r: GlevCtExp)
        ensures
            r.wf(n as nat, k as nat, ell as nat),
            r@ == Seq::new(ell as nat, |l: int| Seq::new(k as nat, |i: int| Seq::new(n as nat, |j: int| 0u64))),
    {
        let ghost z = Seq::new(k as nat, |i: int| Seq::new(n as nat, |j: int| 0u64));
        let mut glwe_cts: Vec<GlweCtExp> = Vec::with_capacity(ell);
        let mut l: usize = 0;
        while l < ell
            invariant
                l <= ell,
                z == Seq::new(k as nat, |i: int| Seq::new(n as nat, |j: int| 0u64)),
                glev_wf(glwe_views(glwe_cts@), n as nat, k as nat, l as nat),
                glwe_views(glwe_cts@) == Seq::new(l as nat, |a: int| z),
            decreases ell - l,
        {
            let c = GlweCtExp::dummy_ct(n, k);
            proof {
                lemma_glwe_views_push(glwe_cts@, c);
            }
            glwe_cts.push(c);
            l += 1;
            assert(glwe_views(glwe_cts@) =~= Seq::new(l as nat, |a: int| z));
        }
        GlevCtExp { glwe_cts }
    }

    /// Gadget multiplication of `glwe_poly` by this GLEV ciphertext, from the
    /// bits of its coefficients and of their negations: the polynomial is
    /// decomposed into `num_limbs(logb)` digit limbs, the least significant
    /// limbs beyond `ell` are dropped, the rest are transformed forward, and
    /// slot `index` of the result is their inner product with row `index`.
    pub fn mul(
        &self,
        params: &NttParams,
        glwe_poly: &GlwePolyExp,
        coeffs_bit_dec: &Vec<Vec<u64>>,
        neg_coeffs_bit_dec: &Vec<Vec<u64>>,
        logb: usize,
    ) -> (r: GlweCtExp)
        requires
            params.wf(),
            self@.len() > 0,
            self.wf(params.n as nat, self@[0].len(), self@.len()),
            self@.len() <= num_limbs(logb as nat),
            glwe_poly.wf(params.n as nat),
            coeffs_bit_dec@.len() == params.n,
            neg_coeffs_bit_dec@.len() == params.n,
            canonical_rows(views(coeffs_bit_dec@), NUM_BITS as nat),
            canonical_rows(views(neg_coeffs_bit_dec@), NUM_BITS as nat),
            0 < logb < 64,
        ensures
            r@ == glev_mul(
                params,
                self@,
                limbs_of(
                    Seq::new(
                        params.n as nat,
                        |i: int|
                            native_digits(coeffs_bit_dec@[i]@, neg_coeffs_bit_dec@[i]@, logb as nat),
                    ),
                    num_limbs(logb as nat),
                ),
                self@[0].len(),
            ),
            r.wf(params.n as nat, self@[0].len()),
    {
        let limbs = glwe_poly.decompose(coeffs_bit_dec, neg_coeffs_bit_dec, logb);
        self.combine_limbs(params, &limbs)
    }

    /// Gadget multiplication as [`GlevCtExp::mul`] does it, with the digits that
    /// [`GlwePolyExp::eval_decompose`] computes, appending its constraints.
    pub fn eval_mul(
        &self,
        constraints: &mut Vec<u64>,
        filter: u64,
        params: &NttParams,
        glwe_poly: &GlwePolyExp,
        coeffs_bit_dec: &Vec<Vec<u64>>,
        logb: usize,
    ) -> (r: GlweCtExp)
        requires
            params.wf(),
            filter < ORDER,
            self@.len() > 0,
            self.wf(params.n as nat, self@[0].len(), self@.len()),
            self@.len() <= num_limbs(logb as nat),
            glwe_poly.wf(params.n as nat),
            coeffs_bit_dec@.len() == params.n,
            canonical_rows(views(coeffs_bit_dec@), NUM_BITS as nat),
            0 < logb < 64,
        ensures
            r.wf(params.n as nat, self@[0].len()),
            (forall|i: int| 0 <= i < params.n ==> all_bits(#[trigger] coeffs_bit_dec@[i]@)) ==> r@
                == glev_mul(
                params,
                self@,
                limbs_of(
                    Seq::new(params.n as nat, |i: int| eval_digits(coeffs_bit_dec@[i]@, logb as nat)),
                    num_limbs(logb as nat),
                ),
                self@[0].len(),
            ),
            final(constraints)@ == old(constraints)@ + poly_constraints(
                filter,
                glwe_poly.coeffs@,
                views(coeffs_bit_dec@),
                logb as nat,
                params.n as nat,
            ),
    {
        let limbs = glwe_poly.eval_decompose(constraints, filter, coeffs_bit_dec, logb);
        self.combine_limbs(params, &limbs)
    }

    /// The top `ell` limbs transformed forward, and their inner product with each row.
    fn combine_limbs(&self, params: &NttParams, limbs: &Vec<Vec<u64>>) -> (r: GlweCtExp)
        requires
            params.wf(),
            self@.len() > 0,
            self.wf(params.n as nat, self@[0].len(), self@.len()),
            self@.len() <= limbs@.len(),
            canonical_rows(views(limbs@), params.n as nat),
        ensures
            r@ == glev_mul(params, self@, views(limbs@), self@[0].len()),
            r.wf(params.n as nat, self@[0].len()),
    {
        let ell = self.glwe_cts.len();
        let k = self.glwe_cts[0].polys.len();
        let nl = limbs.len();
        let ghost hat = Seq::new(ell as nat, |l: int| ntt_fw(params, views(limbs@)[nl - ell + l]));
        let mut limbs_hat: Vec<Vec<u64>> = Vec::with_capacity(ell);
        let mut l: usize = 0;
        while l < ell
            invariant
                params.wf(),
                ell == self@.len(),
                ell <= nl == limbs@.len(),
                canonical_rows(views(limbs@), params.n as nat),
                l <= ell,
                hat == Seq::new(ell as nat, |l: int| ntt_fw(params, views(limbs@)[nl - ell + l])),
                views(limbs_hat@) == hat.take(l as int),
                canonical_rows(views(limbs_hat@), params.n as nat),
            decreases ell - l,
        {
            assert(views(limbs@)[(nl - ell + l) as int] == limbs@[(nl - ell + l) as int]@);
            let h = ntt_forward(params, &limbs[nl - ell + l]);
            proof {
                lemma_views_push(limbs_hat@, h);
            }
            limbs_hat.push(h);
            l += 1;
            assert(views(limbs_hat@) =~= hat.take(l as int));
        }
        assert(views(limbs_hat@) =~= hat);
        let ghost target = glev_mul(params, self@, views(limbs@), k as nat);
        let mut polys: Vec<GlwePolyExp> = Vec::with_capacity(k);
        let mut index: usize = 0;
        while index < k
            invariant
                params.wf(),
                ell == self@.len(),
                ell > 0,
                k == self@[0].len(),
                self.wf(params.n as nat, k as nat, ell as nat),
                views(limbs_hat@) == hat,
                limbs_hat@.len() == ell,
                canonical_rows(views(limbs_hat@), params.n as nat),
                hat == Seq::new(ell as nat, |l: int| ntt_fw(params, views(limbs@)[nl - ell + l])),
                nl == limbs@.len(),
                target == glev_mul(params, self@, views(limbs@), k as nat),
                index <= k,
                poly_views(polys@) == target.take(index as int),
                canonical_rows(poly_views(polys@), params.n as nat),
            decreases k - index,
        {
            let rw = self.get_row(index);
            assert(rw@.len() == views(rw@).len());
            assert(views(limbs_hat@)[0] == limbs_hat@[0]@);
            proof {
                assert forall|l: int| 0 <= l < ell implies (#[trigger] views(rw@)[l]).len() == params.n
                    && canonical(views(rw@)[l]) by {
                    assert(views(rw@)[l] == self@[l][index as int]);
                    assert(self@[l].len() == k);
                }
            }
            let coeffs = vec_inner(&limbs_hat, &rw);
            let q = GlwePolyExp { coeffs };
            proof {
                lemma_poly_views_push(polys@, q);
            }
            polys.push(q);
            index += 1;
            assert(poly_views(polys@) =~= target.take(index as int));
        }
        let r = GlweCtExp { polys };
        assert(r@ =~= target);
        r
    }
}

} // verus!
