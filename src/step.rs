//! One step of the blind-rotation recurrence, in its trace-generation form
//! and in its constraint-evaluation form, and the reading and writing of
//! ciphertexts in a row of field elements.

use crate::decompose::{
    all_bits, all_zero, bits_val, bool_constraints, canonical_rows, eval_le_sum, eval_select_vec, is_bit,
    lemma_all_zero_concat, select,
    le_sum_native, lemma_to_bits_wf, num_limbs, select_seq, to_bits,
};
use crate::field::{canonical, field_neg, fneg, fsub, fmul, p, ORDER, NUM_BITS};
use crate::ggsw_ct::{
    bit_dec_wf, bit_views, combine_products, ct_constraints, ct_sum, eval_products,
    lemma_ct_constraints_zero, native_products, GgswCtExp,
};
use crate::glev_ct::GlevCtExp;
use crate::glwe_ct::{ct_add, ct_sub, decimal_to_binary, GlweCtExp};
use crate::glwe_poly::{lemma_poly_views_push, poly_views, rotate_seq, GlwePolyExp};
use crate::ntt::{ntt_bw, NttParams};
use crate::vec_arithmetic::views;
use vstd::arithmetic::power2::pow2;
use vstd::prelude::*;

verus! {

/// Multiplication by `X^s` in `F[X] / (X^n + 1)` for `0 <= s < 2n`.
pub open spec fn rotate_full(a: Seq<u64>, s: int) -> Seq<u64> {
    if s < a.len() {
        rotate_seq(a, s)
    } else {
        Seq::new(a.len(), |i: int| fneg(rotate_seq(a, s - a.len())[i] as int) as u64)
    }
}

/// Every polynomial multiplied by `X^(v mod 2n)`.
pub open spec fn rotate_ct(a: Seq<Seq<u64>>, v: int, n: nat) -> Seq<Seq<u64>> {
    Seq::new(a.len(), |i: int| rotate_full(a[i], v % (2 * n as int)))
}

/// Polynomialwise `flag * (a - b) + b`.
pub open spec fn select_ct(flag: u64, a: Seq<Seq<u64>>, b: Seq<Seq<u64>>) -> Seq<Seq<u64>> {
    Seq::new(a.len(), |i: int| select_seq(flag, a[i], b[i]))
}

/// The bits of every coefficient of a ciphertext.
pub open spec fn ct_bits(a: Seq<Seq<u64>>) -> Seq<Seq<Seq<u64>>> {
    Seq::new(a.len(), |i: int| Seq::new(a[i].len(), |j: int| to_bits(a[i][j] as int, NUM_BITS as nat)))
}

/// The bits of the negation of every coefficient of a ciphertext.
pub open spec fn ct_neg_bits(a: Seq<Seq<u64>>) -> Seq<Seq<Seq<u64>>> {
    Seq::new(
        a.len(),
        |i: int| Seq::new(a[i].len(), |j: int| to_bits(fneg(a[i][j] as int), NUM_BITS as nat)),
    )
}

/// The mask by which row `counter` rotates: negated on the first row.
pub open spec fn row_mask(mask_ele: u64, counter: u64) -> int {
    if counter == 1 {
        fneg(mask_ele as int)
    } else {
        mask_ele as int
    }
}

/// The accumulator rotated by the row's mask.
pub open spec fn shifted_acc(acc: Seq<Seq<u64>>, mask_ele: u64, counter: u64, n: nat) -> Seq<Seq<u64>> {
    rotate_ct(acc, row_mask(mask_ele, counter), n)
}

/// The input of the row's external product: the accumulator itself on the
/// last row, the difference of the rotated and the current accumulator before.
pub open spec fn xprod_input(
    acc: Seq<Seq<u64>>,
    mask_ele: u64,
    counter: u64,
    n: nat,
    last: int,
) -> Seq<Seq<u64>> {
    if counter == last {
        acc
    } else {
        ct_sub(shifted_acc(acc, mask_ele, counter, n), acc)
    }
}

/// The accumulator after row `counter` of a recurrence over `n_lwe` mask
/// elements: the rotation alone on row 1, the external product alone on row
/// `n_lwe + 2`, and the CMUX `acc + ggsw * (rotate(acc) - acc)` in between.
pub open spec fn step_output(
    params: &NttParams,
    acc: Seq<Seq<u64>>,
    ggsw: Seq<Seq<Seq<Seq<u64>>>>,
    mask_ele: u64,
    counter: u64,
    n_lwe: nat,
    logb: nat,
) -> Seq<Seq<u64>> {
    let n = params.n as nat;
    let last = n_lwe + 2;
    let xin = xprod_input(acc, mask_ele, counter, n, last as int);
    let xout = combine_products(
        params,
        native_products(params, ggsw, ct_bits(xin), ct_neg_bits(xin), logb),
        ggsw.len(),
    );
    if counter == 1 {
        shifted_acc(acc, mask_ele, counter, n)
    } else if counter == last {
        xout
    } else {
        ct_add(xout, acc)
    }
}

/// Multiplication of a polynomial by `X^s`, `0 <= s < 2n`.
pub fn rotate_poly(poly: &GlwePolyExp, s: usize) -> (r: GlwePolyExp)
    requires
        s < 2 * poly.coeffs@.len(),
        canonical(poly.coeffs@),
    ensures
        r.coeffs@ == rotate_full(poly.coeffs@, s as int),
        r.wf(poly.coeffs@.len()),
{
    let n = poly.coeffs.len();
    if s < n {
        poly.rotate(s)
    } else {
        let q = poly.rotate(s - n);
        let mut out: Vec<u64> = Vec::with_capacity(n);
        let mut i: usize = 0;
        while i < n
            invariant
                n == poly.coeffs@.len(),
                n <= s < 2 * n,
                q.wf(n as nat),
                q.coeffs@ == rotate_seq(poly.coeffs@, s - n),
                i <= n,
                out@ == rotate_full(poly.coeffs@, s as int).take(i as int),
                canonical(out@),
            decreases n - i,
        {
            out.push(field_neg(q.coeffs[i]));
            i += 1;
            assert(out@ =~= rotate_full(poly.coeffs@, s as int).take(i as int));
        }
        assert(out@ =~= rotate_full(poly.coeffs@, s as int));
        GlwePolyExp { coeffs: out }
    }
}

/// Every polynomial of `ct` multiplied by `X^v`, for `v` given by its bits.
pub fn rotate_glwe_native(ct: &GlweCtExp, n: usize, mask_bits: &[u64]) -> (r: GlweCtExp)
    requires
        0 < n <= 0x8000_0000,
        ct.wf(n as nat, ct@.len()),
        canonical(mask_bits@),
    ensures
        r@ == rotate_ct(ct@, bits_val(mask_bits@) % p(), n as nat),
        r.wf(n as nat, ct@.len()),
{
    let v = le_sum_native(mask_bits);
    let two_n: u64 = 2 * (n as u64);
    let s64: u64 = v % two_n;
    assert(s64 < 0x1_0000_0000);
    let s: usize = s64 as usize;
    let ghost target = rotate_ct(ct@, bits_val(mask_bits@) % p(), n as nat);
    let mut polys: Vec<GlwePolyExp> = Vec::with_capacity(ct.polys.len());
    let mut i: usize = 0;
    while i < ct.polys.len()
        invariant
            0 < n <= 0x8000_0000,
            ct.wf(n as nat, ct@.len()),
            s as int == (v as int) % (2 * n as int),
            v as int == bits_val(mask_bits@) % p(),
            i <= ct@.len(),
            target == rotate_ct(ct@, bits_val(mask_bits@) % p(), n as nat),
            poly_views(polys@) == target.take(i as int),
            canonical_rows(poly_views(polys@), n as nat),
        decreases ct@.len() - i,
    {
        assert(ct@[i as int] == ct.polys@[i as int].coeffs@);
        let q = rotate_poly(&ct.polys[i], s);
        proof {
            lemma_poly_views_push(polys@, q);
        }
        polys.push(q);
        i += 1;
        assert(poly_views(polys@) =~= target.take(i as int));
    }
    let r = GlweCtExp { polys };
    assert(r@ =~= target);
    r
}

/// Rotation as [`rotate_glwe_native`] does it, by the value of the mask bits,
/// appending their booleanity constraints and `filter * (mask - sum_i bits[i] * 2^i)`.
pub fn eval_rotate_glwe(
    constraints: &mut Vec<u64>,
    filter: u64,
    ct: &GlweCtExp,
    n: usize,
    mask: u64,
    mask_bits: &[u64],
) -> (r: GlweCtExp)
    requires
        0 < n <= 0x8000_0000,
        ct.wf(n as nat, ct@.len()),
        filter < ORDER,
        mask < ORDER,
        canonical(mask_bits@),
    ensures
        r@ == rotate_ct(ct@, bits_val(mask_bits@) % p(), n as nat),
        r.wf(n as nat, ct@.len()),
        final(constraints)@ == old(constraints)@ + bool_constraints(mask_bits@) + seq![
            fmul(filter as int, fsub(mask as int, bits_val(mask_bits@) % p())) as u64,
        ],
{
    let sum = eval_le_sum(constraints, mask_bits);
    let d = crate::field::field_sub(mask, sum);
    constraints.push(crate::field::field_mul(filter, d));
    rotate_glwe_native(ct, n, mask_bits)
}

/// Polynomialwise `flag * (a - b) + b`.
pub fn eval_glwe_select(select_flag: u64, a: &GlweCtExp, b: &GlweCtExp) -> (r: GlweCtExp)
    requires
        select_flag < ORDER,
        a@.len() == b@.len(),
        a@.len() > 0,
        canonical_rows(a@, a@[0].len()),
        canonical_rows(b@, a@[0].len()),
    ensures
        r@ == select_ct(select_flag, a@, b@),
        r.wf(a@[0].len(), a@.len()),
{
    let ghost n = a@[0].len();
    let ghost target = select_ct(select_flag, a@, b@);
    let mut polys: Vec<GlwePolyExp> = Vec::with_capacity(a.polys.len());
    let mut i: usize = 0;
    while i < a.polys.len()
        invariant
            select_flag < ORDER,
            a@.len() == b@.len(),
            canonical_rows(a@, n),
            canonical_rows(b@, n),
            i <= a@.len(),
            target == select_ct(select_flag, a@, b@),
            poly_views(polys@) == target.take(i as int),
            canonical_rows(poly_views(polys@), n),
        decreases a@.len() - i,
    {
        assert(a@[i as int] == a.polys@[i as int].coeffs@);
        assert(b@[i as int] == b.polys@[i as int].coeffs@);
        let q = GlwePolyExp { coeffs: eval_select_vec(select_flag, &a.polys[i].coeffs, &b.polys[i].coeffs) };
        proof {
            lemma_poly_views_push(polys@, q);
        }
        polys.push(q);
        i += 1;
        assert(poly_views(polys@) =~= target.take(i as int));
    }
    let r = GlweCtExp { polys };
    assert(r@ =~= target);
    r
}

proof fn lemma_pos_bit_views(r: Seq<Vec<Vec<u64>>>, a: Seq<Seq<u64>>)
    requires
        r.len() == a.len(),
        forall|i: int|
            0 <= i < a.len() ==> (#[trigger] r[i])@.len() == a[i].len() && forall|j: int|
                0 <= j < a[i].len() ==> (#[trigger] r[i]@[j])@ == to_bits(a[i][j] as int, NUM_BITS as nat),
    ensures
        bit_views(r) == ct_bits(a),
{
    assert forall|i: int| 0 <= i < a.len() implies #[trigger] bit_views(r)[i] == ct_bits(a)[i] by {
        assert(bit_views(r)[i] =~= ct_bits(a)[i]);
    }
    assert(bit_views(r) =~= ct_bits(a));
}

proof fn lemma_neg_bit_views(r: Seq<Vec<Vec<u64>>>, a: Seq<Seq<u64>>)
    requires
        r.len() == a.len(),
        forall|i: int|
            0 <= i < a.len() ==> (#[trigger] r[i])@.len() == a[i].len() && forall|j: int|
                0 <= j < a[i].len() ==> (#[trigger] r[i]@[j])@ == to_bits(fneg(a[i][j] as int), NUM_BITS as nat),
    ensures
        bit_views(r) == ct_neg_bits(a),
{
    assert forall|i: int| 0 <= i < a.len() implies #[trigger] bit_views(r)[i] == ct_neg_bits(a)[i] by {
        assert(bit_views(r)[i] =~= ct_neg_bits(a)[i]);
    }
    assert(bit_views(r) =~= ct_neg_bits(a));
}

proof fn lemma_ct_bits_wf(a: Seq<Seq<u64>>, n: nat)
    requires
        canonical_rows(a, n),
    ensures
        forall|i: int, j: int|
            0 <= i < a.len() && 0 <= j < n ==> (#[trigger] ct_bits(a)[i][j]).len() == NUM_BITS
                && all_bits(ct_bits(a)[i][j]) && canonical(ct_bits(a)[i][j]),
        forall|i: int, j: int|
            0 <= i < a.len() && 0 <= j < n ==> (#[trigger] ct_neg_bits(a)[i][j]).len() == NUM_BITS
                && all_bits(ct_neg_bits(a)[i][j]) && canonical(ct_neg_bits(a)[i][j]),
{
    assert forall|i: int, j: int| 0 <= i < a.len() && 0 <= j < n implies (#[trigger] ct_bits(a)[i][j]).len()
        == NUM_BITS && all_bits(ct_bits(a)[i][j]) && canonical(ct_bits(a)[i][j]) by {
        lemma_to_bits_wf(a[i][j] as int, NUM_BITS as nat);
    }
    assert forall|i: int, j: int| 0 <= i < a.len() && 0 <= j < n implies (#[trigger] ct_neg_bits(a)[i][j]).len()
        == NUM_BITS && all_bits(ct_neg_bits(a)[i][j]) && canonical(ct_neg_bits(a)[i][j]) by {
        lemma_to_bits_wf(fneg(a[i][j] as int), NUM_BITS as nat);
    }
}

/// The trace-generation form of one step of the blind-rotation recurrence
/// over `n_lwe` mask elements, for row `counter`: returns the next
/// accumulator and the bits of the coefficients of the external product's input.
pub fn generate_build_circuit_input(
    params: &NttParams,
    current_acc_in: &GlweCtExp,
    ggsw_ct: &GgswCtExp,
    mask_ele: u64,
    counter: u64,
    n_lwe: u64,
    logb: usize,
) -> (r: (GlweCtExp, Vec<Vec<Vec<u64>>>))
    requires
        params.wf(),
        mask_ele < ORDER,
        n_lwe + 2 <= u64::MAX,
        ggsw_ct@.len() > 0,
        ggsw_ct.wf(params.n as nat, ggsw_ct@.len(), ggsw_ct@[0].len()),
        0 < ggsw_ct@[0].len() <= num_limbs(logb as nat),
        current_acc_in.wf(params.n as nat, ggsw_ct@.len()),
        0 < logb < 64,
    ensures
        r.0@ == step_output(params, current_acc_in@, ggsw_ct@, mask_ele, counter, n_lwe as nat, logb as nat),
        r.0.wf(params.n as nat, ggsw_ct@.len()),
        bit_views(r.1@) == ct_bits(xprod_input(current_acc_in@, mask_ele, counter, params.n as nat, n_lwe + 2)),
{
    let n = params.n;
    let k = ggsw_ct.glev_cts.len();
    proof {
        vstd::arithmetic::power2::lemma_pow2_strictly_increases(params.log_n as nat, 32);
        vstd::arithmetic::power2::lemma2_to64();
        vstd::arithmetic::power2::lemma_pow2_pos(params.log_n as nat);
    }
    let first_neg_mask = if counter == 1 { field_neg(mask_ele) } else { mask_ele };
    let mask_ele_bit_dec = decimal_to_binary(first_neg_mask);
    proof {
        crate::decompose::lemma_to_bits(mask_ele_bit_dec@);
        crate::decompose::lemma_bits_val_bound(mask_ele_bit_dec@);
        vstd::arithmetic::div_mod::lemma_small_mod(first_neg_mask as nat, ORDER as nat);
        crate::decompose::lemma_bits_val_to_bits(first_neg_mask as int, NUM_BITS as nat);
        vstd::arithmetic::power2::lemma2_to64_rest();
        vstd::arithmetic::div_mod::lemma_small_mod(first_neg_mask as nat, pow2(64));
        assert(bits_val(mask_ele_bit_dec@) % p() == row_mask(mask_ele, counter));
    }
    let shifted_glwe = rotate_glwe_native(current_acc_in, n, &mask_ele_bit_dec);
    assert(current_acc_in@[0].len() == n);
    let diff_glwe = shifted_glwe.sub(current_acc_in);
    let last = n_lwe + 2;
    let xprod_in: &GlweCtExp = if counter == last { current_acc_in } else { &diff_glwe };
    let ghost xin = xprod_input(current_acc_in@, mask_ele, counter, n as nat, n_lwe + 2);
    assert(xprod_in@ == xin);
    let xprod_in_pos_bit_dec = xprod_in.get_pos_bit_dec();
    let xprod_in_neg_bit_dec = xprod_in.get_neg_bit_dec();
    proof {
        lemma_ct_bits_wf(xin, n as nat);
        lemma_pos_bit_views(xprod_in_pos_bit_dec@, xin);
        lemma_neg_bit_views(xprod_in_neg_bit_dec@, xin);
        assert forall|i: int| 0 <= i < k implies (#[trigger] xprod_in_pos_bit_dec@[i])@.len() == n
            && canonical_rows(views(xprod_in_pos_bit_dec@[i]@), NUM_BITS as nat) by {
            assert(views(xprod_in_pos_bit_dec@[i]@) == bit_views(xprod_in_pos_bit_dec@)[i]);
            assert(xin[i].len() == n);
            assert forall|j: int| 0 <= j < n implies #[trigger] views(xprod_in_pos_bit_dec@[i]@)[j] == ct_bits(xin)[i][j] by {}
        }
        assert forall|i: int| 0 <= i < k implies (#[trigger] xprod_in_neg_bit_dec@[i])@.len() == n
            && canonical_rows(views(xprod_in_neg_bit_dec@[i]@), NUM_BITS as nat) by {
            assert(views(xprod_in_neg_bit_dec@[i]@) == bit_views(xprod_in_neg_bit_dec@)[i]);
            assert(xin[i].len() == n);
            assert forall|j: int| 0 <= j < n implies #[trigger] views(xprod_in_neg_bit_dec@[i]@)[j] == ct_neg_bits(xin)[i][j] by {}
        }
    }
    let xprod_out = ggsw_ct.external_product(
        params,
        &xprod_in,
        &xprod_in_pos_bit_dec,
        &xprod_in_neg_bit_dec,
        logb,
    );
    let cmux_out = xprod_out.add(current_acc_in);
    let cmux_or_exprod = if counter == last { xprod_out } else { cmux_out };
    let current_acc_out = if counter == 1 { shifted_glwe } else { cmux_or_exprod };
    (current_acc_out, xprod_in_pos_bit_dec)
}

/// The accumulator after a row as the constraint form computes it, from the
/// rotated accumulator and the external product's output, blended by the row flags.
pub open spec fn eval_step_output(
    acc: Seq<Seq<u64>>,
    shifted: Seq<Seq<u64>>,
    xout: Seq<Seq<u64>>,
    is_first_row: u64,
    is_last_non_pad_row: u64,
) -> Seq<Seq<u64>> {
    select_ct(is_first_row, shifted, select_ct(is_last_non_pad_row, xout, ct_add(xout, acc)))
}

/// The constraints that [`eval_step_circuit`] appends: the booleanity of the
/// mask bits, `non_pad_flag * (mask - sum_i bits[i] * 2^i)` for the mask
/// negated on the first row, then the decomposition constraints of every
/// coefficient of the external product's input, selected by the last-row flag.
pub open spec fn step_constraints(
    acc: Seq<Seq<u64>>,
    n: nat,
    mask_element: u64,
    mask_bits: Seq<u64>,
    xbits: Seq<Seq<Seq<u64>>>,
    non_pad_flag: u64,
    is_first_row: u64,
    is_last_non_pad_row: u64,
    logb: nat,
) -> Seq<u64> {
    let first_negated_mask = select(is_first_row as int, fneg(mask_element as int), mask_element as int);
    let shifted = rotate_ct(acc, bits_val(mask_bits) % p(), n);
    let xin = select_ct(is_last_non_pad_row, acc, ct_sub(shifted, acc));
    bool_constraints(mask_bits) + seq![
        fmul(non_pad_flag as int, fsub(first_negated_mask, bits_val(mask_bits) % p())) as u64,
    ] + ct_constraints(non_pad_flag, xin, xbits, logb, acc.len())
}

/// The constraint-evaluation form of one step of the blind-rotation
/// recurrence: rotates by the value of the mask bits (checked against the
/// mask, negated on the first row), takes the external product of the
/// selected input with the witnessed bits, and blends the candidates by the
/// row flags with affine selects instead of branches.
pub fn eval_step_circuit(
    constraints: &mut Vec<u64>,
    params: &NttParams,
    current_acc_in: &GlweCtExp,
    ggsw_ct: &GgswCtExp,
    mask_element: u64,
    mask_ele_bit_dec: &[u64],
    xprod_in_bit_dec: &Vec<Vec<Vec<u64>>>,
    non_pad_flag: u64,
    is_first_row: u64,
    is_last_non_pad_row: u64,
    logb: usize,
) -> (r: GlweCtExp)
    requires
        params.wf(),
        mask_element < ORDER,
        non_pad_flag < ORDER,
        is_first_row < ORDER,
        is_last_non_pad_row < ORDER,
        canonical(mask_ele_bit_dec@),
        ggsw_ct@.len() > 0,
        ggsw_ct.wf(params.n as nat, ggsw_ct@.len(), ggsw_ct@[0].len()),
        0 < ggsw_ct@[0].len() <= num_limbs(logb as nat),
        current_acc_in.wf(params.n as nat, ggsw_ct@.len()),
        bit_dec_wf(xprod_in_bit_dec@, params.n as nat, ggsw_ct@.len()),
        0 < logb < 64,
    ensures
        r.wf(params.n as nat, ggsw_ct@.len()),
        (forall|i: int, j: int|
            0 <= i < ggsw_ct@.len() && 0 <= j < params.n ==> all_bits(
                #[trigger] xprod_in_bit_dec@[i]@[j]@,
            )) ==> r@ == eval_step_output(
            current_acc_in@,
            rotate_ct(current_acc_in@, bits_val(mask_ele_bit_dec@) % p(), params.n as nat),
            combine_products(
                params,
                eval_products(params, ggsw_ct@, bit_views(xprod_in_bit_dec@), logb as nat),
                ggsw_ct@.len(),
            ),
            is_first_row,
            is_last_non_pad_row,
        ),
        final(constraints)@ == old(constraints)@ + step_constraints(
            current_acc_in@,
            params.n as nat,
            mask_element,
            mask_ele_bit_dec@,
            bit_views(xprod_in_bit_dec@),
            non_pad_flag,
            is_first_row,
            is_last_non_pad_row,
            logb as nat,
        ),
{
    let ghost start = constraints@;
    let n = params.n;
    proof {
        vstd::arithmetic::power2::lemma_pow2_strictly_increases(params.log_n as nat, 32);
        vstd::arithmetic::power2::lemma2_to64();
        vstd::arithmetic::power2::lemma_pow2_pos(params.log_n as nat);
    }
    let neg_mask = field_neg(mask_element);
    let d = crate::field::field_sub(neg_mask, mask_element);
    let m = crate::field::field_mul(is_first_row, d);
    let first_negated_mask = crate::field::field_add(m, mask_element);
    let shifted_glwe = eval_rotate_glwe(
        constraints,
        non_pad_flag,
        current_acc_in,
        n,
        first_negated_mask,
        mask_ele_bit_dec,
    );
    assert(current_acc_in@[0].len() == n);
    let diff_glwe = shifted_glwe.sub(current_acc_in);
    let xprod_in = eval_glwe_select(is_last_non_pad_row, current_acc_in, &diff_glwe);
    let ghost mid = constraints@;
    let xprod_out = ggsw_ct.eval_external_product(
        constraints,
        non_pad_flag,
        params,
        &xprod_in,
        xprod_in_bit_dec,
        logb,
    );
    assert(first_negated_mask as int == select(is_first_row as int, fneg(mask_element as int), mask_element as int));
    assert(constraints@ =~= start + step_constraints(
        current_acc_in@,
        params.n as nat,
        mask_element,
        mask_ele_bit_dec@,
        bit_views(xprod_in_bit_dec@),
        non_pad_flag,
        is_first_row,
        is_last_non_pad_row,
        logb as nat,
    ));
    let cmux_out = xprod_out.add(current_acc_in);
    let cmux_or_exprod = eval_glwe_select(is_last_non_pad_row, &xprod_out, &cmux_out);
    eval_glwe_select(is_first_row, &shifted_glwe, &cmux_or_exprod)
}

/// `n` entries of `lv` from column `*cur_col`, which moves past them.
pub fn read_array(lv: &[u64], cur_col: &mut usize, n: usize) -> (r: Vec<u64>)
    requires
        *old(cur_col) + n <= lv@.len(),
    ensures
        r@ == lv@.subrange(*old(cur_col) as int, *old(cur_col) + n),
        *final(cur_col) == *old(cur_col) + n,
{
    let start = *cur_col;
    let _len = lv.len();
    let output = vstd::slice::slice_to_vec(vstd::slice::slice_subrange(lv, start, start + n));
    *cur_col = start + n;
    output
}

/// A polynomial of dimension `n` read from column `*cur_col`.
pub fn read_glwe_poly(lv: &[u64], cur_col: &mut usize, n: usize) -> (r: GlwePolyExp)
    requires
        *old(cur_col) + n <= lv@.len(),
    ensures
        r.coeffs@ == lv@.subrange(*old(cur_col) as int, *old(cur_col) + n),
        *final(cur_col) == *old(cur_col) + n,
{
    GlwePolyExp { coeffs: read_array(lv, cur_col, n) }
}

/// A GLWE ciphertext of `k` polynomials of dimension `n`, read polynomial by
/// polynomial from column `*cur_col`.
pub fn read_glwe_ct(lv: &[u64], cur_col: &mut usize, n: usize, k: usize) -> (r: GlweCtExp)
    requires
        *old(cur_col) + k * n <= lv@.len(),
    ensures
        r@ == Seq::new(k as nat, |i: int| lv@.subrange(*old(cur_col) + i * n, *old(cur_col) + i * n + n)),
        *final(cur_col) == *old(cur_col) + k * n,
{
    let ghost c0 = *cur_col;
    let ghost target = Seq::new(k as nat, |i: int| lv@.subrange(c0 + i * n, c0 + i * n + n));
    let mut polys: Vec<GlwePolyExp> = Vec::with_capacity(k);
    let mut i: usize = 0;
    while i < k
        invariant
            c0 + k * n <= lv@.len(),
            i <= k,
            *cur_col == c0 + i * n,
            target == Seq::new(k as nat, |i: int| lv@.subrange(c0 + i * n, c0 + i * n + n)),
            poly_views(polys@) == target.take(i as int),
        decreases k - i,
    {
        assert(c0 + i * n + n <= c0 + k * n) by (nonlinear_arith)
            requires
                i < k,
        ;
        assert(i * n + n == (i + 1) * n) by (nonlinear_arith);
        let q = read_glwe_poly(lv, cur_col, n);
        proof {
            lemma_poly_views_push(polys@, q);
        }
        polys.push(q);
        i += 1;
        assert(poly_views(polys@) =~= target.take(i as int));
    }
    let r = GlweCtExp { polys };
    assert(r@ =~= target);
    r
}

/// A GLEV ciphertext of `ell` GLWE ciphertexts, read one after another from
/// column `*cur_col`.
pub fn read_glev_ct(lv: &[u64], cur_col: &mut usize, n: usize, k: usize, ell: usize) -> (r: GlevCtExp)
    requires
        *old(cur_col) + ell * (k * n) <= lv@.len(),
    ensures
        r@ == Seq::new(
            ell as nat,
            |l: int|
                Seq::new(
                    k as nat,
                    |i: int|
                        lv@.subrange(
                            *old(cur_col) + l * (k * n) + i * n,
                            *old(cur_col) + l * (k * n) + i * n + n,
                        ),
                ),
        ),
        *final(cur_col) == *old(cur_col) + ell * (k * n),
{
    let ghost c0 = *cur_col;
    let ghost target = Seq::new(
        ell as nat,
        |l: int| Seq::new(k as nat, |i: int| lv@.subrange(c0 + l * (k * n) + i * n, c0 + l * (k * n) + i * n + n)),
    );
    let mut glwe_cts: Vec<GlweCtExp> = Vec::with_capacity(ell);
    let mut l: usize = 0;
    while l < ell
        invariant
            c0 + ell * (k * n) <= lv@.len(),
            l <= ell,
            *cur_col == c0 + l * (k * n),
            target == Seq::new(
                ell as nat,
                |l: int| Seq::new(k as nat, |i: int| lv@.subrange(c0 + l * (k * n) + i * n, c0 + l * (k * n) + i * n + n)),
            ),
            crate::glev_ct::glwe_views(glwe_cts@) == target.take(l as int),
        decreases ell - l,
    {
        assert(c0 + l * (k * n) + k * n <= c0 + ell * (k * n)) by (nonlinear_arith)
            requires
                l < ell,
        ;
        assert(l * (k * n) + k * n == (l + 1) * (k * n)) by (nonlinear_arith);
        let c = read_glwe_ct(lv, cur_col, n, k);
        proof {
            crate::glev_ct::lemma_glwe_views_push(glwe_cts@, c);
            assert(c@ =~= target[l as int]);
        }
        glwe_cts.push(c);
        l += 1;
        assert(crate::glev_ct::glwe_views(glwe_cts@) =~= target.take(l as int));
    }
    let r = GlevCtExp { glwe_cts };
    assert(r@ =~= target);
    r
}

/// A GGSW ciphertext of `k` GLEV ciphertexts, read one after another from
/// column `*cur_col`.
pub fn read_ggsw_ct(lv: &[u64], cur_col: &mut usize, n: usize, k: usize, ell: usize) -> (r: GgswCtExp)
    requires
        *old(cur_col) + k * (ell * (k * n)) <= lv@.len(),
    ensures
        r@ == Seq::new(
            k as nat,
            |g: int|
                Seq::new(
                    ell as nat,
                    |l: int|
                        Seq::new(
                            k as nat,
                            |i: int|
                                lv@.subrange(
                                    *old(cur_col) + g * (ell * (k * n)) + l * (k * n) + i * n,
                                    *old(cur_col) + g * (ell * (k * n)) + l * (k * n) + i * n + n,
                                ),
                        ),
                ),
        ),
        *final(cur_col) == *old(cur_col) + k * (ell * (k * n)),
{
    let ghost c0 = *cur_col;
    let ghost target = Seq::new(
        k as nat,
        |g: int|
            Seq::new(
                ell as nat,
                |l: int|
                    Seq::new(
                        k as nat,
                        |i: int|
                            lv@.subrange(
                                c0 + g * (ell * (k * n)) + l * (k * n) + i * n,
                                c0 + g * (ell * (k * n)) + l * (k * n) + i * n + n,
                            ),
                    ),
            ),
    );
    let mut glev_cts: Vec<GlevCtExp> = Vec::with_capacity(k);
    let mut g: usize = 0;
    while g < k
        invariant
            c0 + k * (ell * (k * n)) <= lv@.len(),
            g <= k,
            *cur_col == c0 + g * (ell * (k * n)),
            target == Seq::new(
                k as nat,
                |g: int|
                    Seq::new(
                        ell as nat,
                        |l: int|
                            Seq::new(
                                k as nat,
                                |i: int|
                                    lv@.subrange(
                                        c0 + g * (ell * (k * n)) + l * (k * n) + i * n,
                                        c0 + g * (ell * (k * n)) + l * (k * n) + i * n + n,
                                    ),
                            ),
                    ),
            ),
            crate::ggsw_ct::glev_views(glev_cts@) == target.take(g as int),
        decreases k - g,
    {
        assert(c0 + g * (ell * (k * n)) + ell * (k * n) <= c0 + k * (ell * (k * n))) by (nonlinear_arith)
            requires
                g < k,
        ;
        assert(g * (ell * (k * n)) + ell * (k * n) == (g + 1) * (ell * (k * n))) by (nonlinear_arith);
        let c = read_glev_ct(lv, cur_col, n, k, ell);
        let ghost before = glev_cts@;
        glev_cts.push(c);
        proof {
            assert(c@ =~= target[g as int]);
            assert(crate::ggsw_ct::glev_views(glev_cts@) =~= crate::ggsw_ct::glev_views(before).push(c@));
        }
        g += 1;
        assert(crate::ggsw_ct::glev_views(glev_cts@) =~= target.take(g as int));
    }
    let r = GgswCtExp { glev_cts };
    assert(r@ =~= target);
    r
}

/// `k` rows of `n` field elements each.
pub open spec fn ct_wf(a: Seq<Seq<u64>>, n: nat, k: nat) -> bool {
    a.len() == k && canonical_rows(a, n)
}

proof fn lemma_ntt_wf(params: &NttParams, a: Seq<u64>)
    requires
        params.wf(),
        a.len() == params.n,
    ensures
        crate::ntt::ntt_fw(params, a).len() == params.n,
        ntt_bw(params, a).len() == params.n,
        canonical(ntt_bw(params, a)),
        canonical(a) ==> canonical(crate::ntt::ntt_fw(params, a)),
{
    crate::ntt::lemma_range_shape(a, params.roots@, params.inv_roots@, params.log_n as nat, 0, params.log_n as nat);
    let b = ntt_bw(params, a);
    assert forall|j: int| 0 <= j < b.len() implies (#[trigger] b[j]) < ORDER by {}
}

proof fn lemma_ct_sum_wf(v: Seq<Seq<Seq<u64>>>, j: nat, n: nat, k: nat)
    requires
        j <= v.len(),
        forall|i: int| 0 <= i < v.len() ==> ct_wf(#[trigger] v[i], n, k),
    ensures
        ct_wf(ct_sum(v, j, n, k), n, k),
    decreases j,
{
    if j > 0 {
        lemma_ct_sum_wf(v, (j - 1) as nat, n, k);
        let s = ct_sum(v, j, n, k);
        assert(ct_wf(v[j - 1], n, k));
        assert forall|i: int| 0 <= i < s.len() implies (#[trigger] s[i]).len() == n && canonical(s[i]) by {
            assert forall|t: int| 0 <= t < s[i].len() implies (#[trigger] s[i][t]) < ORDER by {}
        }
    } else {
        let s = ct_sum(v, 0, n, k);
        assert forall|i: int| 0 <= i < s.len() implies (#[trigger] s[i]).len() == n && canonical(s[i]) by {}
    }
}

proof fn lemma_products_wf(params: &NttParams, g: Seq<Seq<Seq<Seq<u64>>>>, bits: Seq<Seq<Seq<u64>>>, logb: nat)
    requires
        params.wf(),
        g.len() > 0,
        crate::ggsw_ct::ggsw_wf(g, params.n as nat, g.len(), g[0].len()),
        0 < g[0].len() <= num_limbs(logb),
        0 < logb < 64,
        bits.len() == g.len(),
        forall|i: int, j: int| 0 <= i < g.len() && 0 <= j < params.n ==> (#[trigger] bits[i][j]).len() == NUM_BITS,
    ensures
        forall|i: int| 0 <= i < g.len() ==> ct_wf(#[trigger] eval_products(params, g, bits, logb)[i], params.n as nat, g.len()),
{
    let n = params.n as nat;
    let k = g.len();
    let ell = g[0].len();
    let prods = eval_products(params, g, bits, logb);
    assert forall|i: int| 0 <= i < k implies ct_wf(#[trigger] prods[i], n, k) by {
        assert(crate::glev_ct::glev_wf(g[i], n, k, ell));
        let d = Seq::new(n, |j: int| crate::glwe_poly::eval_digits(bits[i][j], logb));
        let limbs = crate::glwe_poly::limbs_of(d, num_limbs(logb));
        let hat = Seq::new(ell, |l: int| crate::ntt::ntt_fw(params, limbs[limbs.len() - ell + l]));
        assert forall|l: int| 0 <= l < limbs.len() implies (#[trigger] limbs[l]).len() == n && canonical(limbs[l]) by {
            assert forall|t: int| 0 <= t < n implies (#[trigger] limbs[l][t]) < ORDER by {
                assert(limbs[l][t] == d[t][l]);
            }
        }
        assert forall|l: int| 0 <= l < ell implies (#[trigger] hat[l]).len() == n && canonical(hat[l]) by {
            lemma_ntt_wf(params, limbs[limbs.len() - ell + l]);
        }
        assert forall|idx: int| 0 <= idx < k implies (#[trigger] prods[i][idx]).len() == n && canonical(prods[i][idx]) by {
            let rw = crate::glev_ct::row(g[i], idx);
            assert forall|l: int| 0 <= l < ell implies (#[trigger] rw[l]).len() == n && canonical(rw[l]) by {
                assert(g[i][l].len() == k);
            }
            crate::vec_arithmetic::lemma_vinner_wf(hat, rw, ell, n);
        }
    }
}

proof fn lemma_combine_wf(params: &NttParams, muls: Seq<Seq<Seq<u64>>>, k: nat)
    requires
        params.wf(),
        k > 0,
        muls.len() == k,
        forall|i: int| 0 <= i < k ==> ct_wf(#[trigger] muls[i], params.n as nat, k),
    ensures
        ct_wf(combine_products(params, muls, k), params.n as nat, k),
{
    let n = params.n as nat;
    lemma_ct_sum_wf(muls, (k - 1) as nat, n, k);
    let s = ct_sum(muls, (k - 1) as nat, n, k);
    let dif = ct_sub(muls[k - 1], s);
    assert(ct_wf(muls[k - 1], n, k));
    let r = combine_products(params, muls, k);
    assert forall|i: int| 0 <= i < k implies (#[trigger] r[i]).len() == n && canonical(r[i]) by {
        assert(dif[i].len() == n);
        lemma_ntt_wf(params, dif[i]);
    }
}

proof fn lemma_select_ct(a: Seq<Seq<u64>>, b: Seq<Seq<u64>>, n: nat, k: nat)
    requires
        ct_wf(a, n, k),
        ct_wf(b, n, k),
    ensures
        select_ct(1, a, b) == a,
        select_ct(0, a, b) == b,
{
    assert forall|i: int| 0 <= i < k implies #[trigger] select_ct(1, a, b)[i] == a[i] && select_ct(0, a, b)[i]
        == b[i] by {
        assert forall|t: int| 0 <= t < n implies #[trigger] select_seq(1, a[i], b[i])[t] == a[i][t]
            && select_seq(0, a[i], b[i])[t] == b[i][t] by {
            let x = a[i][t] as int;
            let y = b[i][t] as int;
            vstd::arithmetic::div_mod::lemma_small_mod(x as nat, p() as nat);
            vstd::arithmetic::div_mod::lemma_small_mod(y as nat, p() as nat);
            vstd::arithmetic::div_mod::lemma_small_mod(0, p() as nat);
            let d = fsub(x, y);
            vstd::arithmetic::div_mod::lemma_small_mod(d as nat, p() as nat);
            assert(1 * d == d);
            assert(0 * d == 0);
            vstd::arithmetic::div_mod::lemma_add_mod_noop(x - y, y, p());
        }
        assert(select_ct(1, a, b)[i] =~= a[i]);
        assert(select_ct(0, a, b)[i] =~= b[i]);
    }
    assert(select_ct(1, a, b) =~= a);
    assert(select_ct(0, a, b) =~= b);
}

proof fn lemma_rotate_wf(a: Seq<Seq<u64>>, v: int, n: nat, k: nat)
    requires
        ct_wf(a, n, k),
        n > 0,
    ensures
        ct_wf(rotate_ct(a, v, n), n, k),
{
    let r = rotate_ct(a, v, n);
    assert forall|i: int| 0 <= i < k implies (#[trigger] r[i]).len() == n && canonical(r[i]) by {
        let s = v % (2 * n as int);
        assert forall|t: int| 0 <= t < n implies (#[trigger] r[i][t]) < ORDER by {
            if s < n {
                assert(rotate_seq(a[i], s)[t] < ORDER);
            } else {
                assert(rotate_seq(a[i], s - n)[t] < ORDER);
            }
        }
    }
}

/// On honest witnesses the constraint form of a step computes the
/// accumulator of the trace form: the mask bits are those of the row's
/// rotation mask, the bits of the external product's input are those of its
/// coefficients, and the flags mark the first and the last row. Running the
/// rows one after another therefore follows the recurrence of the trace form.
pub proof fn lemma_step_forms_agree(
    params: &NttParams,
    acc: Seq<Seq<u64>>,
    ggsw: Seq<Seq<Seq<Seq<u64>>>>,
    mask_ele: u64,
    counter: u64,
    n_lwe: nat,
    logb: nat,
)
    requires
        params.wf(),
        ggsw.len() > 0,
        crate::ggsw_ct::ggsw_wf(ggsw, params.n as nat, ggsw.len(), ggsw[0].len()),
        0 < ggsw[0].len() <= num_limbs(logb),
        ct_wf(acc, params.n as nat, ggsw.len()),
        mask_ele < ORDER,
        1 <= counter <= n_lwe + 2,
        0 < logb < 64,
    ensures
        ({
            let n = params.n as nat;
            let xin = xprod_input(acc, mask_ele, counter, n, n_lwe + 2 as int);
            let first = if counter == 1 { 1u64 } else { 0u64 };
            let last = if counter == n_lwe + 2 { 1u64 } else { 0u64 };
            eval_step_output(
                acc,
                rotate_ct(acc, bits_val(to_bits(row_mask(mask_ele, counter), NUM_BITS as nat)) % p(), n),
                combine_products(params, eval_products(params, ggsw, ct_bits(xin), logb), ggsw.len()),
                first,
                last,
            ) == step_output(params, acc, ggsw, mask_ele, counter, n_lwe, logb)
        }),
{
    let n = params.n as nat;
    let k = ggsw.len();
    vstd::arithmetic::power2::lemma_pow2_pos(params.log_n as nat);
    // the mask bits recompose to the rotation mask
    let v = row_mask(mask_ele, counter);
    vstd::arithmetic::power2::lemma2_to64_rest();
    crate::decompose::lemma_bits_val_to_bits(v, NUM_BITS as nat);
    vstd::arithmetic::div_mod::lemma_small_mod(v as nat, pow2(64));
    vstd::arithmetic::div_mod::lemma_small_mod(v as nat, p() as nat);
    let shifted = shifted_acc(acc, mask_ele, counter, n);
    lemma_rotate_wf(acc, v, n, k);
    // the input of the external product is well formed
    let xin = xprod_input(acc, mask_ele, counter, n, n_lwe + 2 as int);
    assert(ct_wf(xin, n, k)) by {
        if counter != n_lwe + 2 {
            assert forall|i: int| 0 <= i < k implies (#[trigger] xin[i]).len() == n && canonical(xin[i]) by {
                assert forall|t: int| 0 <= t < n implies (#[trigger] xin[i][t]) < ORDER by {}
            }
        }
    }
    // the digits of both forms agree coefficient by coefficient
    let eb = ct_bits(xin);
    let nb = ct_neg_bits(xin);
    assert forall|i: int| 0 <= i < k implies #[trigger] eval_products(params, ggsw, eb, logb)[i]
        == native_products(params, ggsw, eb, nb, logb)[i] by {
        assert forall|j: int| 0 <= j < n implies #[trigger] crate::glwe_poly::eval_digits(eb[i][j], logb)
            == crate::decompose::native_digits(eb[i][j], nb[i][j], logb) by {
            crate::decompose::lemma_eval_digits_native(xin[i][j], logb);
        }
        assert(Seq::new(n, |j: int| crate::glwe_poly::eval_digits(eb[i][j], logb)) =~= Seq::new(
            n,
            |j: int| crate::decompose::native_digits(eb[i][j], nb[i][j], logb),
        ));
    }
    assert(eval_products(params, ggsw, eb, logb) =~= native_products(params, ggsw, eb, nb, logb));
    // well-formedness of the candidates
    assert forall|i: int, j: int| 0 <= i < k && 0 <= j < n implies (#[trigger] eb[i][j]).len() == NUM_BITS by {
        lemma_to_bits_wf(xin[i][j] as int, NUM_BITS as nat);
    }
    lemma_products_wf(params, ggsw, eb, logb);
    let xout = combine_products(params, eval_products(params, ggsw, eb, logb), k);
    lemma_combine_wf(params, eval_products(params, ggsw, eb, logb), k);
    let cmux = ct_add(xout, acc);
    assert(ct_wf(cmux, n, k)) by {
        assert forall|i: int| 0 <= i < k implies (#[trigger] cmux[i]).len() == n && canonical(cmux[i]) by {
            assert forall|t: int| 0 <= t < n implies (#[trigger] cmux[i][t]) < ORDER by {}
        }
    }
    lemma_select_ct(xout, cmux, n, k);
    lemma_select_ct(shifted, xout, n, k);
    lemma_select_ct(shifted, cmux, n, k);
}

proof fn lemma_select_scalar(x: int, y: int)
    requires
        0 <= x < p(),
        0 <= y < p(),
    ensures
        select(1, x, y) == x,
        select(0, x, y) == y,
{
    vstd::arithmetic::div_mod::lemma_small_mod(x as nat, p() as nat);
    vstd::arithmetic::div_mod::lemma_small_mod(y as nat, p() as nat);
    vstd::arithmetic::div_mod::lemma_small_mod(0, p() as nat);
    let d = fsub(x, y);
    vstd::arithmetic::div_mod::lemma_small_mod(d as nat, p() as nat);
    assert(1 * d == d);
    assert(0 * d == 0);
    vstd::arithmetic::div_mod::lemma_add_mod_noop(x - y, y, p());
}

/// On an honest row every constraint of the step holds: the row is not
/// padding, the flags mark the first and the last row, the mask bits are
/// those of the rotation mask (negated on the first row) and the bits of the
/// external product's input are those of its coefficients.
pub proof fn lemma_step_constraints_zero(
    acc: Seq<Seq<u64>>,
    n: nat,
    k: nat,
    mask_ele: u64,
    counter: u64,
    n_lwe: nat,
    logb: nat,
)
    requires
        ct_wf(acc, n, k),
        n > 0,
        mask_ele < ORDER,
        1 <= counter <= n_lwe + 2,
    ensures
        ({
            let xin = xprod_input(acc, mask_ele, counter, n, n_lwe + 2 as int);
            all_zero(
                step_constraints(
                    acc,
                    n,
                    mask_ele,
                    to_bits(row_mask(mask_ele, counter), NUM_BITS as nat),
                    ct_bits(xin),
                    1,
                    if counter == 1 { 1u64 } else { 0u64 },
                    if counter == n_lwe + 2 { 1u64 } else { 0u64 },
                    logb,
                ),
            )
        }),
{
    let v = row_mask(mask_ele, counter);
    let mb = to_bits(v, NUM_BITS as nat);
    let first: u64 = if counter == 1 { 1 } else { 0 };
    let last: u64 = if counter == n_lwe + 2 { 1 } else { 0 };
    vstd::arithmetic::power2::lemma2_to64_rest();
    lemma_to_bits_wf(v, NUM_BITS as nat);
    crate::decompose::lemma_bits_val_to_bits(v, NUM_BITS as nat);
    vstd::arithmetic::div_mod::lemma_small_mod(v as nat, pow2(64));
    vstd::arithmetic::div_mod::lemma_small_mod(v as nat, p() as nat);
    // mask bits are bits
    let bc = bool_constraints(mb);
    assert forall|i: int| 0 <= i < bc.len() implies #[trigger] bc[i] == 0 by {
        assert(is_bit(mb[i]));
        vstd::arithmetic::div_mod::lemma_small_mod(0, p() as nat);
        vstd::arithmetic::div_mod::lemma_small_mod(1, p() as nat);
    }
    // the mask check
    lemma_select_scalar(fneg(mask_ele as int), mask_ele as int);
    let fm = select(first as int, fneg(mask_ele as int), mask_ele as int);
    assert(fm == v);
    vstd::arithmetic::div_mod::lemma_small_mod(0, p() as nat);
    assert(fsub(fm, v) == 0);
    assert(1 * 0 == 0);
    let mid = seq![fmul(1, fsub(fm, bits_val(mb) % p())) as u64];
    assert(mid[0] == 0);
    assert(all_zero(mid));
    // the decomposition constraints of the selected input
    let shifted = rotate_ct(acc, bits_val(mb) % p(), n);
    let dif = ct_sub(shifted, acc);
    lemma_rotate_wf(acc, v, n, k);
    assert(ct_wf(dif, n, k)) by {
        assert forall|i: int| 0 <= i < k implies (#[trigger] dif[i]).len() == n && canonical(dif[i]) by {
            assert forall|t: int| 0 <= t < n implies (#[trigger] dif[i][t]) < ORDER by {}
        }
    }
    lemma_select_ct(acc, dif, n, k);
    let xin = select_ct(last, acc, dif);
    assert(xin == xprod_input(acc, mask_ele, counter, n, n_lwe + 2 as int));
    let xb = ct_bits(xin);
    lemma_ct_constraints_zero(1, xin, xb, logb, k);
    lemma_all_zero_concat(bc, mid);
    lemma_all_zero_concat(bc + mid, ct_constraints(1, xin, xb, logb, k));
}

/// The GLWE ciphertext stored from column `c0`: `k` polynomials of `n` entries.
pub open spec fn glwe_at(lv: Seq<u64>, c0: int, n: nat, k: nat) -> Seq<Seq<u64>> {
    Seq::new(k, |i: int| lv.subrange(c0 + i * n, c0 + i * n + n))
}

/// The GGSW ciphertext stored from column `c0`, GLEV after GLEV.
pub open spec fn ggsw_at(lv: Seq<u64>, c0: int, n: nat, k: nat, ell: nat) -> Seq<Seq<Seq<Seq<u64>>>> {
    Seq::new(
        k,
        |g: int|
            Seq::new(
                ell,
                |l: int|
                    Seq::new(
                        k,
                        |i: int|
                            lv.subrange(
                                c0 + g * (ell * (k * n)) + l * (k * n) + i * n,
                                c0 + g * (ell * (k * n)) + l * (k * n) + i * n + n,
                            ),
                    ),
            ),
    )
}

/// The `k * n` bit decompositions stored from column `c0`, coefficient after coefficient.
pub open spec fn bit_dec_at(lv: Seq<u64>, c0: int, n: nat, k: nat) -> Seq<Seq<Seq<u64>>> {
    Seq::new(
        k,
        |i: int|
            Seq::new(
                n,
                |j: int|
                    lv.subrange(
                        c0 + i * (n * NUM_BITS) + j * NUM_BITS,
                        c0 + i * (n * NUM_BITS) + j * NUM_BITS + NUM_BITS,
                    ),
            ),
    )
}

proof fn lemma_offset(a: int, b: int, size: int)
    requires
        0 <= a < b,
        size >= 0,
    ensures
        0 <= a * size,
        a * size + size <= b * size,
{
    assert(0 <= a * size && a * size + size <= b * size) by (nonlinear_arith)
        requires
            0 <= a < b,
            size >= 0,
    ;
}

proof fn lemma_canonical_subrange(lv: Seq<u64>, lo: int, hi: int)
    requires
        0 <= lo <= hi <= lv.len(),
        canonical(lv),
    ensures
        canonical(lv.subrange(lo, hi)),
{
    assert forall|t: int| 0 <= t < hi - lo implies (#[trigger] lv.subrange(lo, hi)[t]) < ORDER by {
        assert(lv.subrange(lo, hi)[t] == lv[lo + t]);
    }
}

/// Ciphertexts read from a row of field elements are well formed.
pub proof fn lemma_row_fields_wf(lv: Seq<u64>, c0: int, n: nat, k: nat, ell: nat)
    requires
        canonical(lv),
        0 <= c0,
    ensures
        c0 + k * n <= lv.len() ==> ct_wf(glwe_at(lv, c0, n, k), n, k),
        c0 + k * (ell * (k * n)) <= lv.len() ==> crate::ggsw_ct::ggsw_wf(ggsw_at(lv, c0, n, k, ell), n, k, ell),
        c0 + k * (n * NUM_BITS) <= lv.len() ==> bit_dec_at(lv, c0, n, k).len() == k && forall|i: int, j: int|
            0 <= i < k && 0 <= j < n ==> (#[trigger] bit_dec_at(lv, c0, n, k)[i][j]).len() == NUM_BITS
                && canonical(bit_dec_at(lv, c0, n, k)[i][j]),
{
    if c0 + k * n <= lv.len() {
        let a = glwe_at(lv, c0, n, k);
        assert forall|i: int| 0 <= i < k implies (#[trigger] a[i]).len() == n && canonical(a[i]) by {
            lemma_offset(i, k as int, n as int);
            lemma_canonical_subrange(lv, c0 + i * n, c0 + i * n + n);
        }
    }
    if c0 + k * (ell * (k * n)) <= lv.len() {
        let g = ggsw_at(lv, c0, n, k, ell);
        assert forall|a: int| 0 <= a < k implies crate::glev_ct::glev_wf(#[trigger] g[a], n, k, ell) by {
            assert forall|l: int| 0 <= l < ell implies (#[trigger] g[a][l]).len() == k && canonical_rows(
                g[a][l],
                n,
            ) by {
                assert forall|i: int| 0 <= i < k implies (#[trigger] g[a][l][i]).len() == n && canonical(
                    g[a][l][i],
                ) by {
                    lemma_offset(a, k as int, (ell * (k * n)) as int);
                    lemma_offset(l, ell as int, (k * n) as int);
                    lemma_offset(i, k as int, n as int);
                    lemma_canonical_subrange(
                        lv,
                        c0 + a * (ell * (k * n)) + l * (k * n) + i * n,
                        c0 + a * (ell * (k * n)) + l * (k * n) + i * n + n,
                    );
                }
            }
        }
    }
    if c0 + k * (n * NUM_BITS) <= lv.len() {
        let b = bit_dec_at(lv, c0, n, k);
        assert forall|i: int, j: int| 0 <= i < k && 0 <= j < n implies (#[trigger] b[i][j]).len() == NUM_BITS
            && canonical(b[i][j]) by {
            lemma_offset(i, k as int, (n * NUM_BITS) as int);
            lemma_offset(j, n as int, NUM_BITS as int);
            lemma_canonical_subrange(
                lv,
                c0 + i * (n * NUM_BITS) + j * NUM_BITS,
                c0 + i * (n * NUM_BITS) + j * NUM_BITS + NUM_BITS,
            );
        }
    }
}

/// `k` rows of `n` bit decompositions of `NUM_BITS` entries each, read from
/// column `*cur_col`.
pub fn read_bit_dec(lv: &[u64], cur_col: &mut usize, n: usize, k: usize) -> (r: Vec<Vec<Vec<u64>>>)
    requires
        *old(cur_col) + k * (n * NUM_BITS) <= lv@.len(),
    ensures
        bit_views(r@) == bit_dec_at(lv@, *old(cur_col) as int, n as nat, k as nat),
        r@.len() == k,
        forall|i: int| 0 <= i < k ==> (#[trigger] r@[i])@.len() == n,
        *final(cur_col) == *old(cur_col) + k * (n * NUM_BITS),
{
    let ghost c0 = *cur_col as int;
    let ghost target = bit_dec_at(lv@, c0, n as nat, k as nat);
    let mut out: Vec<Vec<Vec<u64>>> = Vec::with_capacity(k);
    let mut i: usize = 0;
    while i < k
        invariant
            c0 + k * (n * NUM_BITS) <= lv@.len(),
            i <= k,
            *cur_col == c0 + i * (n * NUM_BITS),
            target == bit_dec_at(lv@, c0, n as nat, k as nat),
            out@.len() == i,
            forall|a: int| 0 <= a < i ==> (#[trigger] out@[a])@.len() == n,
            forall|a: int| 0 <= a < i ==> views((#[trigger] out@[a])@) == target[a],
        decreases k - i,
    {
        proof {
            lemma_offset(i as int, k as int, (n * NUM_BITS) as int);
        }
        let mut row: Vec<Vec<u64>> = Vec::with_capacity(n);
        let mut j: usize = 0;
        while j < n
            invariant
                c0 + k * (n * NUM_BITS) <= lv@.len(),
                i < k,
                c0 + i * (n * NUM_BITS) + n * NUM_BITS <= c0 + k * (n * NUM_BITS),
                j <= n,
                *cur_col == c0 + i * (n * NUM_BITS) + j * NUM_BITS,
                target == bit_dec_at(lv@, c0, n as nat, k as nat),
                views(row@) == target[i as int].take(j as int),
            decreases n - j,
        {
            proof {
                lemma_offset(j as int, n as int, NUM_BITS as int);
                assert((j + 1) * NUM_BITS == j * NUM_BITS + NUM_BITS) by (nonlinear_arith);
            }
            let bits = read_array(lv, cur_col, NUM_BITS);
            proof {
                crate::vec_arithmetic::lemma_views_push(row@, bits);
            }
            row.push(bits);
            j += 1;
            assert(views(row@) =~= target[i as int].take(j as int));
        }
        assert(views(row@) =~= target[i as int]);
        assert(row@.len() == views(row@).len());
        proof {
            assert(n * NUM_BITS == (n * NUM_BITS) as int);
            assert((i + 1) * (n * NUM_BITS) == i * (n * NUM_BITS) + n * NUM_BITS) by (nonlinear_arith);
        }
        out.push(row);
        i += 1;
    }
    assert(bit_views(out@) =~= target);
    out
}

/// An entry of a stored bit decomposition is the row entry at its column.
pub proof fn lemma_bit_dec_entry(lv: Seq<u64>, c0: int, n: nat, k: nat, i: int, j: int, t: int)
    requires
        0 <= c0,
        c0 + k * (n * NUM_BITS) <= lv.len(),
        0 <= i < k,
        0 <= j < n,
        0 <= t < NUM_BITS,
    ensures
        bit_dec_at(lv, c0, n, k)[i][j][t] == lv[c0 + i * (n * NUM_BITS) + j * NUM_BITS + t],
        0 <= c0 + i * (n * NUM_BITS) + j * NUM_BITS + t < lv.len(),
{
    lemma_offset(i, k as int, (n * NUM_BITS) as int);
    lemma_offset(j, n as int, NUM_BITS as int);
}

} // verus!
