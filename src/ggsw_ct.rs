//! A GGSW ciphertext: `k` GLEV ciphertexts, and the external product of a
//! GLWE ciphertext by it.

use crate::decompose::{all_bits, all_zero, canonical_rows, lemma_all_zero_concat, native_digits, num_limbs, to_bits};
use crate::field::{ORDER, NUM_BITS};
use crate::glev_ct::{glev_mul, glev_wf, glwe_views, GlevCtExp};
use crate::glwe_ct::{concat, ct_add, ct_ntt_bw, ct_sub, GlweCtExp};
use crate::glwe_poly::{eval_digits, lemma_poly_constraints_zero, limbs_of, poly_constraints};
use crate::ntt::NttParams;
use crate::vec_arithmetic::views;
use vstd::prelude::*;

verus! {

#[derive(Debug, Clone)]
pub struct GgswCtExp {
    pub glev_cts: Vec<GlevCtExp>,
}

/// The ciphertext type of the trace-generation path; it is the same type.
pub type GgswCtNative = GgswCtExp;

/// The views of a list of GLEV ciphertexts.
pub open spec fn glev_views(v: Seq<GlevCtExp>) -> Seq<Seq<Seq<Seq<u64>>>> {
    v.map_values(|c: GlevCtExp| c@)
}

impl View for GgswCtExp {
    type V = Seq<Seq<Seq<Seq<u64>>>>;

    /// The views of the GLEV ciphertexts.
    open spec fn view(&self) -> Seq<Seq<Seq<Seq<u64>>>> {
        glev_views(self.glev_cts@)
    }
}

/// The zero GLWE ciphertext of `k` polynomials of dimension `n`.
pub open spec fn ct_zero(n: nat, k: nat) -> Seq<Seq<u64>> {
    Seq::new(k, |i: int| Seq::new(n, |j: int| 0u64))
}

/// The GGSW ciphertext whose entries are all zero.
pub open spec fn ggsw_zero(n: nat, k: nat, ell: nat) -> Seq<Seq<Seq<Seq<u64>>>> {
    Seq::new(k, |g: int| Seq::new(ell, |l: int| ct_zero(n, k)))
}

/// Sum of the first `j` GLWE ciphertexts of `v`, folded from zero.
pub open spec fn ct_sum(v: Seq<Seq<Seq<u64>>>, j: nat, n: nat, k: nat) -> Seq<Seq<u64>>
    decreases j,
{
    if j == 0 {
        ct_zero(n, k)
    } else {
        ct_add(ct_sum(v, (j - 1) as nat, n, k), v[j - 1])
    }
}

/// `k` GLEV ciphertexts, each of `ell` GLWE ciphertexts of `k` polynomials of
/// dimension `n`.
pub open spec fn ggsw_wf(g: Seq<Seq<Seq<Seq<u64>>>>, n: nat, k: nat, ell: nat) -> bool {
    &&& g.len() == k
    &&& forall|i: int| 0 <= i < k ==> glev_wf(#[trigger] g[i], n, k, ell)
}

/// The external product from the per-slot gadget products `muls`: the sum of
/// the first `k - 1` is subtracted from the last, and the difference is
/// transformed backward.
pub open spec fn combine_products(params: &NttParams, muls: Seq<Seq<Seq<u64>>>, k: nat) -> Seq<
    Seq<u64>,
> {
    ct_ntt_bw(params, ct_sub(muls[k - 1], ct_sum(muls, (k - 1) as nat, params.n as nat, k)))
}

/// The gadget products of [`GgswCtExp::external_product`], slot by slot.
pub open spec fn native_products(
    params: &NttParams,
    g: Seq<Seq<Seq<Seq<u64>>>>,
    bits: Seq<Seq<Seq<u64>>>,
    neg_bits: Seq<Seq<Seq<u64>>>,
    logb: nat,
) -> Seq<Seq<Seq<u64>>> {
    Seq::new(
        g.len(),
        |i: int|
            glev_mul(
                params,
                g[i],
                limbs_of(
                    Seq::new(params.n as nat, |j: int| native_digits(bits[i][j], neg_bits[i][j], logb)),
                    num_limbs(logb),
                ),
                g.len(),
            ),
    )
}

/// The gadget products of [`GgswCtExp::eval_external_product`] on bits.
pub open spec fn eval_products(
    params: &NttParams,
    g: Seq<Seq<Seq<Seq<u64>>>>,
    bits: Seq<Seq<Seq<u64>>>,
    logb: nat,
) -> Seq<Seq<Seq<u64>>> {
    Seq::new(
        g.len(),
        |i: int|
            glev_mul(
                params,
                g[i],
                limbs_of(
                    Seq::new(params.n as nat, |j: int| eval_digits(bits[i][j], logb)),
                    num_limbs(logb),
                ),
                g.len(),
            ),
    )
}

/// The views of a `[k][n][bits]` array of bit decompositions.
pub open spec fn bit_views(b: Seq<Vec<Vec<u64>>>) -> Seq<Seq<Seq<u64>>> {
    b.map_values(|r: Vec<Vec<u64>>| views(r@))
}

/// `k` rows of `n` bit decompositions of `NUM_BITS` canonical entries.
pub open spec fn bit_dec_wf(b: Seq<Vec<Vec<u64>>>, n: nat, k: nat) -> bool {
    &&& b.len() == k
    &&& forall|i: int|
        0 <= i < k ==> (#[trigger] b[i])@.len() == n && canonical_rows(views(b[i]@), NUM_BITS as nat)
}

/// The constraints that [`GgswCtExp::eval_external_product`] appends for the
/// first `i` polynomials of `glwe`, polynomial after polynomial.
pub open spec fn ct_constraints(
    filter: u64,
    glwe: Seq<Seq<u64>>,
    bits: Seq<Seq<Seq<u64>>>,
    logb: nat,
    i: nat,
) -> Seq<u64>
    decreases i,
{
    if i == 0 {
        Seq::empty()
    } else {
        ct_constraints(filter, glwe, bits, logb, (i - 1) as nat) + poly_constraints(
            filter,
            glwe[i - 1],
            bits[i - 1],
            logb,
            glwe[i - 1].len(),
        )
    }
}

/// The constraints of an external product hold on the bits of the
/// coefficients of its input.
pub proof fn lemma_ct_constraints_zero(
    filter: u64,
    glwe: Seq<Seq<u64>>,
    bits: Seq<Seq<Seq<u64>>>,
    logb: nat,
    i: nat,
)
    requires
        i <= glwe.len(),
        i <= bits.len(),
        forall|a: int| 0 <= a < i ==> crate::field::canonical(#[trigger] glwe[a]),
        forall|a: int, j: int|
            0 <= a < i && 0 <= j < glwe[a].len() ==> #[trigger] bits[a][j] == to_bits(
                glwe[a][j] as int,
                NUM_BITS as nat,
            ),
        forall|a: int| 0 <= a < i ==> (#[trigger] bits[a]).len() == glwe[a].len(),
    ensures
        all_zero(ct_constraints(filter, glwe, bits, logb, i)),
    decreases i,
{
    if i > 0 {
        let a = i - 1;
        lemma_ct_constraints_zero(filter, glwe, bits, logb, (i - 1) as nat);
        assert(crate::field::canonical(glwe[a]));
        assert(bits[a].len() == glwe[a].len());
        assert forall|j: int| 0 <= j < glwe[a].len() implies #[trigger] bits[a][j] == to_bits(
            glwe[a][j] as int,
            NUM_BITS as nat,
        ) by {}
        lemma_poly_constraints_zero(filter, glwe[a], bits[a], logb, glwe[a].len());
        lemma_all_zero_concat(
            ct_constraints(filter, glwe, bits, logb, (i - 1) as nat),
            poly_constraints(filter, glwe[a], bits[a], logb, glwe[a].len()),
        );
    }
}

/// With the filter off and all bits zero, the constraints of an external product hold.
pub proof fn lemma_ct_constraints_idle(glwe: Seq<Seq<u64>>, bits: Seq<Seq<Seq<u64>>>, logb: nat, i: nat)
    requires
        i <= glwe.len(),
        i <= bits.len(),
        forall|a: int| 0 <= a < i ==> (#[trigger] bits[a]).len() == glwe[a].len(),
        forall|a: int, j: int| 0 <= a < i && 0 <= j < glwe[a].len() ==> (#[trigger] bits[a][j]).len() == NUM_BITS,
        forall|a: int, j: int, t: int|
            0 <= a < i && 0 <= j < glwe[a].len() && 0 <= t < NUM_BITS ==> #[trigger] bits[a][j][t] == 0,
    ensures
        all_zero(ct_constraints(0, glwe, bits, logb, i)),
    decreases i,
{
    if i > 0 {
        let a = i - 1;
        lemma_ct_constraints_idle(glwe, bits, logb, (i - 1) as nat);
        assert forall|j: int| 0 <= j < glwe[a].len() implies (#[trigger] bits[a][j]).len() == NUM_BITS by {}
        assert forall|j: int, t: int| 0 <= j < glwe[a].len() && 0 <= t < NUM_BITS implies #[trigger] bits[a][j][t]
            == 0 by {}
        crate::glwe_poly::lemma_poly_constraints_idle(glwe[a], bits[a], logb, glwe[a].len());
        lemma_all_zero_concat(
            ct_constraints(0, glwe, bits, logb, (i - 1) as nat),
            poly_constraints(0, glwe[a], bits[a], logb, glwe[a].len()),
        );
    }
}

/// Sum of a list of GLWE ciphertexts of `k > 0` polynomials of dimension `n`.
pub fn glwe_add_many_native(glwes: &[GlweCtExp], n: usize, k: usize) -> (r: GlweCtExp)
    requires
        k > 0,
        forall|i: int|
            0 <= i < glwes@.len() ==> (#[trigger] glwes@[i]).wf(n as nat, k as nat),
    ensures
        r@ == ct_sum(glwe_views(glwes@), glwes@.len(), n as nat, k as nat),
        r.wf(n as nat, k as nat),
{
    let mut acc = GlweCtExp::dummy_ct(n, k);
    let mut i: usize = 0;
    while i < glwes.len()
        invariant
            k > 0,
            forall|i: int|
                0 <= i < glwes@.len() ==> (#[trigger] glwes@[i]).wf(n as nat, k as nat),
            i <= glwes@.len(),
            acc.wf(n as nat, k as nat),
            acc@ == ct_sum(glwe_views(glwes@), i as nat, n as nat, k as nat),
        decreases glwes@.len() - i,
    {
        assert(glwes@[i as int].wf(n as nat, k as nat));
        assert(glwe_views(glwes@)[i as int] == glwes@[i as int]@);
        assert(acc@[0].len() == n);
        acc = acc.add(&glwes[i]);
        i += 1;
    }
    acc
}

impl GgswCtExp {
    pub open spec fn wf(&self, n: nat, k: nat, ell: nat) -> bool {
        ggsw_wf(self@, n, k, ell)
    }

    /// Number of field elements in a GGSW ciphertext.
    pub fn num_targets(n: usize, k: usize, ell: usize) -> (r: usize)
        requires
            k * k * n * ell <= usize::MAX,
        ensures
            r == k * k * n * ell,
    {
        if k == 0 || n == 0 || ell == 0 {
            assert(k * k * n * ell == 0) by (nonlinear_arith)
                requires
                    k == 0 || n == 0 || ell == 0,
            ;
            0
        } else {
            assert(k <= k * k && k * k <= k * k * n && k * k * n <= k * k * n * ell) by (nonlinear_arith)
                requires
                    k > 0,
                    n > 0,
                    ell > 0,
            ;
            k * k * n * ell
        }
    }

    /// The coefficients of all GLEV ciphertexts, one after another.
    pub fn flatten(&self) -> (r: Vec<u64>)
        ensures
            r@ == concat(
                Seq::new(
                    self@.len(),
                    |i: int|
                        concat(
                            Seq::new(self@[i].len(), |l: int| concat(self@[i][l], self@[i][l].len())),
                            self@[i].len(),
                        ),
                ),
                self@.len(),
            ),
    {
        let ghost parts = Seq::new(
            self@.len(),
            |i: int|
                concat(
                    Seq::new(self@[i].len(), |l: int| concat(self@[i][l], self@[i][l].len())),
                    self@[i].len(),
                ),
        );
        let mut out: Vec<u64> = Vec::new();
        let mut i: usize = 0;
        while i < self.glev_cts.len()
            invariant
                i <= self@.len(),
                parts == Seq::new(
                    self@.len(),
                    |i: int|
                        concat(
                            Seq::new(self@[i].len(), |l: int| concat(self@[i][l], self@[i][l].len())),
                            self@[i].len(),
                        ),
                ),
                out@ == concat(parts, i as nat),
            decreases self@.len() - i,
        {
            assert(self@[i as int] == self.glev_cts@[i as int]@);
            let f = self.glev_cts[i].flatten();
            let mut j: usize = 0;
            let ghost before = out@;
            while j < f.len()
                invariant
                    j <= f@.len(),
                    out@ == before + f@.take(j as int),
                decreases f@.len() - j,
            {
                out.push(f[j]);
                j += 1;
                assert(out@ =~= before + f@.take(j as int));
            }
            assert(f@.take(j as int) =~= f@);
            i += 1;
        }
        out
    }

    /// `k` zero GLEV ciphertexts.
    pub fn dummy_ct(n: usize, k: usize, ell: usize) -> (r: GgswCtExp)
        ensures
            r.wf(n as nat, k as nat, ell as nat),
            r@ == ggsw_zero(n as nat, k as nat, ell as nat),
    {
        let mut glev_cts: Vec<GlevCtExp> = Vec::with_capacity(k);
        let mut i: usize = 0;
        while i < k
            invariant
                i <= k,
                glev_views(glev_cts@).len() == i,
                glev_views(glev_cts@) == ggsw_zero(n as nat, k as nat, ell as nat).take(i as int),
                forall|a: int| 0 <= a < i ==> glev_wf(#[trigger] glev_views(glev_cts@)[a], n as nat, k as nat, ell as nat),
            decreases k - i,
        {
            let g = GlevCtExp::dummy_ct(n, k, ell);
            let ghost before = glev_cts@;
            glev_cts.push(g);
            assert(glev_views(glev_cts@) =~= glev_views(before).push(g@));
            i += 1;
            assert(glev_views(glev_cts@) =~= ggsw_zero(n as nat, k as nat, ell as nat).take(i as int));
        }
        let r = GgswCtExp { glev_cts };
        assert(r@ =~= ggsw_zero(n as nat, k as nat, ell as nat));
        r
    }

    /// External product of `glwe` by this ciphertext: polynomial `i` of `glwe`
    /// is multiplied by GLEV ciphertext `i`, the sum of the first `k - 1`
    /// products is subtracted from the last, and the result is transformed
    /// backward.
    pub fn external_product(
        &self,
        params: &NttParams,
        glwe: &GlweCtExp,
        glwe_poly_coeffs_bit_dec: &Vec<Vec<Vec<u64>>>,
        neg_glwe_poly_coeffs_bit_dec: &Vec<Vec<Vec<u64>>>,
        logb: usize,
    ) -> (r: GlweCtExp)
        requires
            params.wf(),
            self@.len() > 0,
            self.wf(params.n as nat, self@.len(), self@[0].len()),
            0 < self@[0].len() <= num_limbs(logb as nat),
            glwe.wf(params.n as nat, self@.len()),
            bit_dec_wf(glwe_poly_coeffs_bit_dec@, params.n as nat, self@.len()),
            bit_dec_wf(neg_glwe_poly_coeffs_bit_dec@, params.n as nat, self@.len()),
            0 < logb < 64,
        ensures
            r@ == combine_products(
                params,
                native_products(
                    params,
                    self@,
                    bit_views(glwe_poly_coeffs_bit_dec@),
                    bit_views(neg_glwe_poly_coeffs_bit_dec@),
                    logb as nat,
                ),
                self@.len(),
            ),
            r.wf(params.n as nat, self@.len()),
    {
        let k = self.glev_cts.len();
        let ghost target = native_products(
            params,
            self@,
            bit_views(glwe_poly_coeffs_bit_dec@),
            bit_views(neg_glwe_poly_coeffs_bit_dec@),
            logb as nat,
        );
        let mut glev_muls: Vec<GlweCtExp> = Vec::with_capacity(k);
        let mut i: usize = 0;
        while i < k
            invariant
                params.wf(),
                k == self@.len(),
                self.wf(params.n as nat, k as nat, self@[0].len()),
                0 < self@[0].len() <= num_limbs(logb as nat),
                glwe.wf(params.n as nat, k as nat),
                bit_dec_wf(glwe_poly_coeffs_bit_dec@, params.n as nat, k as nat),
                bit_dec_wf(neg_glwe_poly_coeffs_bit_dec@, params.n as nat, k as nat),
                0 < logb < 64,
                i <= k,
                target == native_products(
                    params,
                    self@,
                    bit_views(glwe_poly_coeffs_bit_dec@),
                    bit_views(neg_glwe_poly_coeffs_bit_dec@),
                    logb as nat,
                ),
                glwe_views(glev_muls@) == target.take(i as int),
                forall|a: int| 0 <= a < i ==> (#[trigger] glev_muls@[a]).wf(params.n as nat, k as nat),
            decreases k - i,
        {
            let glev = &self.glev_cts[i];
            assert(self@[i as int] == glev@);
            assert(glev_wf(self@[i as int], params.n as nat, k as nat, self@[0].len()));
            assert(glwe@[i as int] == glwe.polys@[i as int].coeffs@);
            assert(glwe_poly_coeffs_bit_dec@[i as int]@.len() == params.n);
            let m = glev.mul(
                params,
                &glwe.polys[i],
                &glwe_poly_coeffs_bit_dec[i],
                &neg_glwe_poly_coeffs_bit_dec[i],
                logb,
            );
            proof {
                assert(bit_views(glwe_poly_coeffs_bit_dec@)[i as int] == views(glwe_poly_coeffs_bit_dec@[i as int]@));
                assert(bit_views(neg_glwe_poly_coeffs_bit_dec@)[i as int] == views(neg_glwe_poly_coeffs_bit_dec@[i as int]@));
                assert(m@ == target[i as int]) by {
                    assert(Seq::new(params.n as nat, |j: int| native_digits(
                        bit_views(glwe_poly_coeffs_bit_dec@)[i as int][j],
                        bit_views(neg_glwe_poly_coeffs_bit_dec@)[i as int][j],
                        logb as nat,
                    )) =~= Seq::new(params.n as nat, |j: int| native_digits(
                        glwe_poly_coeffs_bit_dec@[i as int]@[j]@,
                        neg_glwe_poly_coeffs_bit_dec@[i as int]@[j]@,
                        logb as nat,
                    )));
                }
            }
            let ghost before = glev_muls@;
            glev_muls.push(m);
            assert(glwe_views(glev_muls@) =~= glwe_views(before).push(m@));
            i += 1;
            assert(glwe_views(glev_muls@) =~= target.take(i as int));
        }
        assert(glwe_views(glev_muls@) =~= target);
        let sum_polys = glwe_add_many_native(
            vstd::slice::slice_subrange(glev_muls.as_slice(), 0, k - 1),
            params.n,
            k,
        );
        assert(glwe_views(glev_muls@.subrange(0, k - 1)) =~= target.take(k - 1));
        proof {
            lemma_ct_sum_prefix(target, glwe_views(glev_muls@.subrange(0, k - 1)), (k - 1) as nat, params.n as nat, k as nat);
        }
        assert(glev_muls@[k - 1]@ == target[k - 1]);
        let diff = glev_muls[k - 1].sub(&sum_polys);
        diff.ntt_backward(params)
    }

    /// External product as [`GgswCtExp::external_product`] computes it, with
    /// the gadget products of [`GlevCtExp::eval_mul`], appending their constraints.
    pub fn eval_external_product(
        &self,
        constraints: &mut Vec<u64>,
        filter: u64,
        params: &NttParams,
        glwe: &GlweCtExp,
        glwe_poly_coeffs_bit_dec: &Vec<Vec<Vec<u64>>>,
        logb: usize,
    ) -> (r: GlweCtExp)
        requires
            params.wf(),
            filter < ORDER,
            self@.len() > 0,
            self.wf(params.n as nat, self@.len(), self@[0].len()),
            0 < self@[0].len() <= num_limbs(logb as nat),
            glwe.wf(params.n as nat, self@.len()),
            bit_dec_wf(glwe_poly_coeffs_bit_dec@, params.n as nat, self@.len()),
            0 < logb < 64,
        ensures
            r.wf(params.n as nat, self@.len()),
            (forall|i: int, j: int|
                0 <= i < self@.len() && 0 <= j < params.n ==> all_bits(
                    #[trigger] glwe_poly_coeffs_bit_dec@[i]@[j]@,
                )) ==> r@ == combine_products(
                params,
                eval_products(params, self@, bit_views(glwe_poly_coeffs_bit_dec@), logb as nat),
                self@.len(),
            ),
            final(constraints)@ == old(constraints)@ + ct_constraints(
                filter,
                glwe@,
                bit_views(glwe_poly_coeffs_bit_dec@),
                logb as nat,
                self@.len(),
            ),
    {
        let ghost start = constraints@;
        let ghost bv = bit_views(glwe_poly_coeffs_bit_dec@);
        assert(start + ct_constraints(filter, glwe@, bv, logb as nat, 0) =~= start);
        let k = self.glev_cts.len();
        let ghost all = forall|i: int, j: int|
            0 <= i < k && 0 <= j < params.n ==> all_bits(#[trigger] glwe_poly_coeffs_bit_dec@[i]@[j]@);
        let ghost target = eval_products(params, self@, bit_views(glwe_poly_coeffs_bit_dec@), logb as nat);
        let mut glev_muls: Vec<GlweCtExp> = Vec::with_capacity(k);
        let mut i: usize = 0;
        while i < k
            invariant
                params.wf(),
                filter < ORDER,
                k == self@.len(),
                self.wf(params.n as nat, k as nat, self@[0].len()),
                0 < self@[0].len() <= num_limbs(logb as nat),
                glwe.wf(params.n as nat, k as nat),
                bit_dec_wf(glwe_poly_coeffs_bit_dec@, params.n as nat, k as nat),
                0 < logb < 64,
                i <= k,
                all == forall|i: int, j: int|
                    0 <= i < k && 0 <= j < params.n ==> all_bits(#[trigger] glwe_poly_coeffs_bit_dec@[i]@[j]@),
                target == eval_products(params, self@, bit_views(glwe_poly_coeffs_bit_dec@), logb as nat),
                glev_muls@.len() == i,
                all ==> glwe_views(glev_muls@) == target.take(i as int),
                forall|a: int| 0 <= a < i ==> (#[trigger] glev_muls@[a]).wf(params.n as nat, k as nat),
                bv == bit_views(glwe_poly_coeffs_bit_dec@),
                constraints@ == start + ct_constraints(filter, glwe@, bv, logb as nat, i as nat),
            decreases k - i,
        {
            let glev = &self.glev_cts[i];
            assert(self@[i as int] == glev@);
            assert(glev_wf(self@[i as int], params.n as nat, k as nat, self@[0].len()));
            assert(glwe@[i as int] == glwe.polys@[i as int].coeffs@);
            let ghost before_c = constraints@;
            let m = glev.eval_mul(
                constraints,
                filter,
                params,
                &glwe.polys[i],
                &glwe_poly_coeffs_bit_dec[i],
                logb,
            );
            proof {
                assert(bv[i as int] == views(glwe_poly_coeffs_bit_dec@[i as int]@));
                assert(glwe@[i as int].len() == params.n);
                assert(constraints@ =~= start + ct_constraints(filter, glwe@, bv, logb as nat, (i + 1) as nat));
                if all {
                    assert(bit_views(glwe_poly_coeffs_bit_dec@)[i as int] == views(glwe_poly_coeffs_bit_dec@[i as int]@));
                    assert forall|j: int| 0 <= j < params.n implies all_bits(#[trigger] glwe_poly_coeffs_bit_dec@[i as int]@[j]@) by {
                        assert(all_bits(glwe_poly_coeffs_bit_dec@[i as int]@[j]@));
                    }
                    assert(m@ == target[i as int]) by {
                        assert(Seq::new(params.n as nat, |j: int| eval_digits(
                            bit_views(glwe_poly_coeffs_bit_dec@)[i as int][j],
                            logb as nat,
                        )) =~= Seq::new(params.n as nat, |j: int| eval_digits(
                            glwe_poly_coeffs_bit_dec@[i as int]@[j]@,
                            logb as nat,
                        )));
                    }
                }
            }
            let ghost before = glev_muls@;
            glev_muls.push(m);
            assert(glwe_views(glev_muls@) =~= glwe_views(before).push(m@));
            i += 1;
            proof {
                if all {
                    assert(glwe_views(glev_muls@) =~= target.take(i as int));
                }
            }
        }
        let sum_polys = glwe_add_many_native(
            vstd::slice::slice_subrange(glev_muls.as_slice(), 0, k - 1),
            params.n,
            k,
        );
        proof {
            if all {
                assert(glwe_views(glev_muls@) =~= target);
                assert(glwe_views(glev_muls@.subrange(0, k - 1)) =~= target.take(k - 1));
                lemma_ct_sum_prefix(target, glwe_views(glev_muls@.subrange(0, k - 1)), (k - 1) as nat, params.n as nat, k as nat);
                assert(glev_muls@[k - 1]@ == target[k - 1]);
            }
        }
        let diff = glev_muls[k - 1].sub(&sum_polys);
        diff.ntt_backward(params)
    }
}

/// A sum over a prefix depends on the prefix alone.
pub proof fn lemma_ct_sum_prefix(v: Seq<Seq<Seq<u64>>>, w: Seq<Seq<Seq<u64>>>, j: nat, n: nat, k: nat)
    requires
        j <= v.len(),
        w == v.take(j as int),
    ensures
        ct_sum(w, j, n, k) == ct_sum(v, j, n, k),
    decreases j,
{
    if j > 0 {
        lemma_ct_sum_prefix(v, v.take(j - 1), (j - 1) as nat, n, k);
        lemma_ct_sum_prefix(w, w.take(j - 1), (j - 1) as nat, n, k);
        assert(v.take(j - 1) =~= w.take(j - 1));
    }
}

} // verus!
