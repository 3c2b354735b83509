//! The rows of the blind-rotation trace: each row holds the accumulator, the
//! row's GGSW ciphertext, the mask element, the bits of the rotation mask and
//! of the external product's input, and three row flags, in that order.

use crate::decompose::{all_bits, all_zero, bits_val, canonical_rows, lemma_all_zero_concat, num_limbs, to_bits};
use crate::field::{canonical, field_neg, fmul, fneg, fsub, p, ORDER, NUM_BITS};
use crate::ggsw_ct::{bit_views, combine_products, eval_products, GgswCtExp};
use crate::glwe_ct::{concat, ct_sub, decimal_to_binary, GlweCtExp};
use crate::glwe_poly::GlwePolyExp;
use crate::ntt::NttParams;
use crate::vec_arithmetic::views;
use crate::step::{
    bit_dec_at, ct_bits, eval_step_circuit, eval_step_output, generate_build_circuit_input, ggsw_at,
    glwe_at, lemma_row_fields_wf, read_array, read_bit_dec, read_ggsw_ct, read_glwe_ct, rotate_ct,
    ct_wf, row_mask, select_ct, step_constraints, step_output, xprod_input,
};
use vstd::prelude::*;

verus! {

/// `lv` with the entries from column `at` on replaced by `input`.
pub open spec fn splice(lv: Seq<u64>, at: int, input: Seq<u64>) -> Seq<u64> {
    Seq::new(lv.len(), |i: int| if at <= i < at + input.len() { input[i - at] } else { lv[i] })
}

proof fn lemma_splice_twice(lv: Seq<u64>, at: int, a: Seq<u64>, b: Seq<u64>)
    requires
        0 <= at,
        at + a.len() + b.len() <= lv.len(),
    ensures
        splice(splice(lv, at, a), at + a.len(), b) == splice(lv, at, a + b),
{
    assert(splice(splice(lv, at, a), at + a.len(), b) =~= splice(lv, at, a + b));
}

/// Width of a trace row for ring dimension `n`, `k` polynomials per GLWE
/// ciphertext and `ell` digit levels.
pub fn row_width(n: usize, k: usize, ell: usize) -> (r: usize)
    requires
        n > 0,
        k > 0,
        ell > 0,
        n * k + k * (ell * (k * n)) + 1 + NUM_BITS + NUM_BITS * n * k + 3 <= usize::MAX,
    ensures
        r == n * k + k * (ell * (k * n)) + 1 + NUM_BITS + NUM_BITS * n * k + 3,
{
    assert(n * k <= k * n * ell && k * n <= ell * (k * n) && ell * (k * n) <= k * (ell * (k * n))
        && n * k <= NUM_BITS * n * k && NUM_BITS * n <= NUM_BITS * n * k && n * k == k * n) by (nonlinear_arith)
        requires
            n > 0,
            k > 0,
            ell > 0,
    ;
    n * k + k * (ell * (k * n)) + 1 + NUM_BITS + NUM_BITS * n * k + 3
}

/// Writes `input` into `lv` from column `*cur_col`, which moves past it.
pub fn write_array(lv: &mut Vec<u64>, cur_col: &mut usize, input: &[u64])
    requires
        *old(cur_col) + input@.len() <= old(lv)@.len(),
    ensures
        final(lv)@ == splice(old(lv)@, *old(cur_col) as int, input@),
        *final(cur_col) == *old(cur_col) + input@.len(),
{
    let c0 = *cur_col;
    let ghost lv0 = lv@;
    let total = lv.len();
    let mut i: usize = 0;
    while i < input.len()
        invariant
            total == lv0.len(),
            c0 + input@.len() <= lv0.len(),
            lv@.len() == lv0.len(),
            i <= input@.len(),
            lv@ == splice(lv0, c0 as int, input@.take(i as int)),
        decreases input@.len() - i,
    {
        lv.set(c0 + i, input[i]);
        i += 1;
        assert(lv@ =~= splice(lv0, c0 as int, input@.take(i as int)));
    }
    assert(input@.take(i as int) =~= input@);
    *cur_col = c0 + input.len();
}

/// Writes the coefficients of `input` from column `*cur_col`.
pub fn write_glwe_poly(lv: &mut Vec<u64>, input: &GlwePolyExp, cur_col: &mut usize)
    requires
        *old(cur_col) + input.coeffs@.len() <= old(lv)@.len(),
    ensures
        final(lv)@ == splice(old(lv)@, *old(cur_col) as int, input.coeffs@),
        *final(cur_col) == *old(cur_col) + input.coeffs@.len(),
{
    write_array(lv, cur_col, &input.coeffs);
}

/// Writes the polynomials of `input` one after another from column `*cur_col`.
pub fn write_glwe_ct(lv: &mut Vec<u64>, input: &GlweCtExp, cur_col: &mut usize)
    requires
        *old(cur_col) + concat(input@, input@.len()).len() <= old(lv)@.len(),
    ensures
        final(lv)@ == splice(old(lv)@, *old(cur_col) as int, concat(input@, input@.len())),
        *final(cur_col) == *old(cur_col) + concat(input@, input@.len()).len(),
{
    let flat = input.flatten();
    write_array(lv, cur_col, &flat);
}

/// Writes the GLWE ciphertexts of a GLEV ciphertext one after another.
pub fn write_glev_ct(lv: &mut Vec<u64>, input: &crate::glev_ct::GlevCtExp, cur_col: &mut usize)
    requires
        *old(cur_col) + concat(
            Seq::new(input@.len(), |l: int| concat(input@[l], input@[l].len())),
            input@.len(),
        ).len() <= old(lv)@.len(),
    ensures
        final(lv)@ == splice(
            old(lv)@,
            *old(cur_col) as int,
            concat(Seq::new(input@.len(), |l: int| concat(input@[l], input@[l].len())), input@.len()),
        ),
{
    let flat = input.flatten();
    write_array(lv, cur_col, &flat);
}

/// The entries of a GGSW ciphertext in row order.
pub open spec fn ggsw_flat(g: Seq<Seq<Seq<Seq<u64>>>>) -> Seq<u64> {
    concat(
        Seq::new(
            g.len(),
            |i: int|
                concat(Seq::new(g[i].len(), |l: int| concat(g[i][l], g[i][l].len())), g[i].len()),
        ),
        g.len(),
    )
}

/// Writes the GLEV ciphertexts of a GGSW ciphertext one after another.
pub fn write_ggsw_ct(lv: &mut Vec<u64>, input: &GgswCtExp, cur_col: &mut usize)
    requires
        *old(cur_col) + ggsw_flat(input@).len() <= old(lv)@.len(),
    ensures
        final(lv)@ == splice(old(lv)@, *old(cur_col) as int, ggsw_flat(input@)),
        *final(cur_col) == *old(cur_col) + ggsw_flat(input@).len(),
{
    let flat = input.flatten();
    write_array(lv, cur_col, &flat);
}

/// The bits of the external product's input, coefficient by coefficient.
pub open spec fn bits_flat(b: Seq<Seq<Seq<u64>>>) -> Seq<u64> {
    concat(Seq::new(b.len(), |i: int| concat(b[i], b[i].len())), b.len())
}

/// Appends `src` to `out`.
fn append(out: &mut Vec<u64>, src: &[u64])
    ensures
        final(out)@ == old(out)@ + src@,
{
    let ghost start = out@;
    let mut j: usize = 0;
    while j < src.len()
        invariant
            j <= src@.len(),
            out@ == start + src@.take(j as int),
        decreases src@.len() - j,
    {
        out.push(src[j]);
        j += 1;
        assert(out@ =~= start + src@.take(j as int));
    }
    assert(src@.take(j as int) =~= src@);
}

/// The rows one after another.
fn concat_rows(rows: &Vec<Vec<u64>>) -> (r: Vec<u64>)
    ensures
        r@ == concat(views(rows@), rows@.len()),
{
    let mut out: Vec<u64> = Vec::new();
    let mut j: usize = 0;
    while j < rows.len()
        invariant
            j <= rows@.len(),
            out@ == concat(views(rows@), j as nat),
        decreases rows@.len() - j,
    {
        assert(views(rows@)[j as int] == rows@[j as int]@);
        append(&mut out, &rows[j]);
        j += 1;
    }
    out
}

/// The bits of every coefficient, one coefficient after another.
pub fn flatten_bits(b: &Vec<Vec<Vec<u64>>>) -> (r: Vec<u64>)
    ensures
        r@ == bits_flat(bit_views(b@)),
{
    let ghost bv = bit_views(b@);
    let ghost parts = Seq::new(bv.len(), |i: int| concat(bv[i], bv[i].len()));
    let mut out: Vec<u64> = Vec::new();
    let mut i: usize = 0;
    while i < b.len()
        invariant
            i <= b@.len(),
            bv == bit_views(b@),
            parts == Seq::new(bv.len(), |i: int| concat(bv[i], bv[i].len())),
            out@ == concat(parts, i as nat),
        decreases b@.len() - i,
    {
        assert(bv[i as int] == views(b@[i as int]@));
        let row = concat_rows(&b[i]);
        append(&mut out, &row);
        i += 1;
    }
    out
}

/// The parts of a row that [`fill_row`] writes: accumulator, GGSW ciphertext,
/// mask element, bits of the rotation mask and bits of the external product's input.
pub open spec fn row_content(
    acc: Seq<Seq<u64>>,
    ggsw: Seq<Seq<Seq<Seq<u64>>>>,
    mask_ele: u64,
    counter: u64,
    xbits: Seq<Seq<Seq<u64>>>,
) -> Seq<u64> {
    concat(acc, acc.len()) + ggsw_flat(ggsw) + seq![mask_ele] + to_bits(
        row_mask(mask_ele, counter),
        NUM_BITS as nat,
    ) + bits_flat(xbits)
}


/// The smallest `r * 2^e` that is at least `steps`.
pub open spec fn pad_rows(steps: nat, r: nat) -> nat
    decreases (if r < steps { steps - r } else { 0 }) as nat,
{
    if r == 0 || r >= steps {
        r
    } else {
        pad_rows(steps, 2 * r)
    }
}

/// Number of trace rows for `steps` rows of work: the smallest power of two
/// that holds them, and at least 8.
pub fn num_rows(steps: usize) -> (r: usize)
    requires
        steps <= usize::MAX / 2,
    ensures
        r == pad_rows(steps as nat, 8),
        r >= steps,
        r >= 8,
{
    let mut r: usize = 8;
    while r < steps
        invariant
            steps <= usize::MAX / 2,
            8 <= r,
            pad_rows(steps as nat, r as nat) == pad_rows(steps as nat, 8),
        decreases (if r < steps { steps - r } else { 0 }) as nat,
    {
        r = 2 * r;
    }
    r
}

/// GGSW ciphertext of trace row `i`: the zero ciphertext on the first row,
/// then the bootstrapping key, then the key-switching key.
pub open spec fn trace_ggsw(
    bsk: Seq<Seq<Seq<Seq<Seq<u64>>>>>,
    ksk: Seq<Seq<Seq<Seq<u64>>>>,
    dummy: Seq<Seq<Seq<Seq<u64>>>>,
    i: int,
) -> Seq<Seq<Seq<Seq<u64>>>> {
    if i == 0 {
        dummy
    } else if i <= bsk.len() {
        bsk[i - 1]
    } else {
        ksk
    }
}

/// Mask element of trace row `i`: the body of the LWE ciphertext on the first
/// row, then its mask elements, then zero.
pub open spec fn trace_mask(ct: Seq<u64>, i: int) -> u64 {
    if i == 0 {
        ct[ct.len() - 1]
    } else if i < ct.len() {
        ct[i - 1]
    } else {
        0
    }
}

/// The accumulator entering trace row `i`.
pub open spec fn acc_before(
    params: &NttParams,
    acc0: Seq<Seq<u64>>,
    bsk: Seq<Seq<Seq<Seq<Seq<u64>>>>>,
    ksk: Seq<Seq<Seq<Seq<u64>>>>,
    dummy: Seq<Seq<Seq<Seq<u64>>>>,
    ct: Seq<u64>,
    logb: nat,
    i: nat,
) -> Seq<Seq<u64>>
    decreases i,
{
    if i == 0 {
        acc0
    } else {
        step_output(
            params,
            acc_before(params, acc0, bsk, ksk, dummy, ct, logb, (i - 1) as nat),
            trace_ggsw(bsk, ksk, dummy, i - 1),
            trace_mask(ct, i - 1),
            i as u64,
            bsk.len(),
            logb,
        )
    }
}

/// Trace row `i` of a blind rotation: its witness followed by the flags
/// `non_pad_flag`, `is_first_row` and `is_last_non_pad_row`.
pub open spec fn trace_row(
    params: &NttParams,
    acc0: Seq<Seq<u64>>,
    bsk: Seq<Seq<Seq<Seq<Seq<u64>>>>>,
    ksk: Seq<Seq<Seq<Seq<u64>>>>,
    dummy: Seq<Seq<Seq<Seq<u64>>>>,
    ct: Seq<u64>,
    logb: nat,
    i: nat,
) -> Seq<u64> {
    let acc = acc_before(params, acc0, bsk, ksk, dummy, ct, logb, i);
    let mask = trace_mask(ct, i as int);
    let counter = (i + 1) as u64;
    row_content(
        acc,
        trace_ggsw(bsk, ksk, dummy, i as int),
        mask,
        counter,
        ct_bits(xprod_input(acc, mask, counter, params.n as nat, bsk.len() + 2 as int)),
    ) + seq![1u64, if i == 0 { 1u64 } else { 0u64 }, if i == bsk.len() + 1 { 1u64 } else { 0u64 }]
}

pub proof fn lemma_ggsw_flat_len(g: Seq<Seq<Seq<Seq<u64>>>>, n: nat, k: nat, ell: nat)
    requires
        crate::ggsw_ct::ggsw_wf(g, n, k, ell),
    ensures
        ggsw_flat(g).len() == k * (ell * (k * n)),
{
    let outer = Seq::new(
        g.len(),
        |i: int| concat(Seq::new(g[i].len(), |l: int| concat(g[i][l], g[i][l].len())), g[i].len()),
    );
    assert forall|i: int| 0 <= i < outer.len() implies (#[trigger] outer[i]).len() == ell * (k * n) by {
        let mid = Seq::new(g[i].len(), |l: int| concat(g[i][l], g[i][l].len()));
        assert(crate::glev_ct::glev_wf(g[i], n, k, ell));
        assert forall|l: int| 0 <= l < mid.len() implies (#[trigger] mid[l]).len() == k * n by {
            assert(g[i][l].len() == k);
            crate::glwe_ct::lemma_concat_len(g[i][l], k, n);
        }
        crate::glwe_ct::lemma_concat_len(mid, ell, k * n);
    }
    crate::glwe_ct::lemma_concat_len(outer, k, ell * (k * n));
}

pub proof fn lemma_bits_flat_len(x: Seq<Seq<u64>>, n: nat, k: nat)
    requires
        x.len() == k,
        forall|i: int| 0 <= i < k ==> (#[trigger] x[i]).len() == n,
    ensures
        bits_flat(ct_bits(x)).len() == k * (n * NUM_BITS),
{
    let b = ct_bits(x);
    let outer = Seq::new(b.len(), |i: int| concat(b[i], b[i].len()));
    assert forall|i: int| 0 <= i < outer.len() implies (#[trigger] outer[i]).len() == n * NUM_BITS by {
        assert forall|j: int| 0 <= j < b[i].len() implies (#[trigger] b[i][j]).len() == NUM_BITS by {
            crate::decompose::lemma_to_bits_wf(x[i][j] as int, NUM_BITS as nat);
        }
        assert(b[i].len() == n);
        crate::glwe_ct::lemma_concat_len(b[i], n, NUM_BITS as nat);
    }
    crate::glwe_ct::lemma_concat_len(outer, k, (n * NUM_BITS) as nat);
}



/// Column of the GGSW ciphertext in a trace row.
pub open spec fn ggsw_col(n: nat, k: nat) -> int {
    (k * n) as int
}

/// Column of the mask element in a trace row.
pub open spec fn mask_col(n: nat, k: nat, ell: nat) -> int {
    ggsw_col(n, k) + k * (ell * (k * n))
}

/// Column of the bits of the external product's input in a trace row.
pub open spec fn bits_col(n: nat, k: nat, ell: nat) -> int {
    mask_col(n, k, ell) + 1 + NUM_BITS
}

/// Column of the flags `non_pad_flag`, `is_first_row`, `is_last_non_pad_row`.
pub open spec fn flags_col(n: nat, k: nat, ell: nat) -> int {
    bits_col(n, k, ell) + k * (n * NUM_BITS)
}

/// The constraints that [`VpbsStark::eval_packed_generic`] appends for the
/// row `lv`: those of [`eval_step_circuit`] on the row's fields.
pub open spec fn row_constraints(params: &NttParams, lv: Seq<u64>, k: nat, ell: nat, logb: nat) -> Seq<u64> {
    let n = params.n as nat;
    let mc = mask_col(n, k, ell);
    let fc = flags_col(n, k, ell);
    step_constraints(
        glwe_at(lv, 0, n, k),
        n,
        lv[mc],
        lv.subrange(mc + 1, mc + 1 + NUM_BITS),
        bit_dec_at(lv, bits_col(n, k, ell), n, k),
        lv[fc],
        lv[fc + 1],
        lv[fc + 2],
        logb,
    )
}

proof fn lemma_subrange_of_concat(a: Seq<u64>, b: Seq<u64>, lo: int, hi: int)
    requires
        0 <= lo <= hi,
    ensures
        hi <= a.len() ==> (a + b).subrange(lo, hi) == a.subrange(lo, hi),
        a.len() <= lo && hi <= a.len() + b.len() ==> (a + b).subrange(lo, hi) == b.subrange(
            lo - a.len(),
            hi - a.len(),
        ),
{
    if hi <= a.len() {
        assert((a + b).subrange(lo, hi) =~= a.subrange(lo, hi));
    }
    if a.len() <= lo && hi <= a.len() + b.len() {
        assert((a + b).subrange(lo, hi) =~= b.subrange(lo - a.len(), hi - a.len()));
    }
}

/// Part `j` of a concatenation of parts of length `n`.
proof fn lemma_concat_part(v: Seq<Seq<u64>>, k: nat, n: nat, j: int)
    requires
        k <= v.len(),
        forall|i: int| 0 <= i < v.len() ==> (#[trigger] v[i]).len() == n,
        0 <= j < k,
    ensures
        concat(v, k).len() == k * n,
        0 <= j * n,
        j * n + n <= k * n,
        concat(v, k).subrange(j * n, j * n + n) == v[j],
    decreases k,
{
    crate::glwe_ct::lemma_concat_len(v, k, n);
    assert(0 <= j * n && j * n + n <= k * n) by (nonlinear_arith)
        requires
            0 <= j < k,
    ;
    let prev = concat(v, (k - 1) as nat);
    crate::glwe_ct::lemma_concat_len(v, (k - 1) as nat, n);
    assert(concat(v, k) == prev + v[k - 1]);
    if j == k - 1 {
        assert(prev.len() == j * n);
        lemma_subrange_of_concat(prev, v[k - 1], j * n, j * n + n);
        assert(v[k - 1].subrange(0, n as int) =~= v[k - 1]);
    } else {
        lemma_concat_part(v, (k - 1) as nat, n, j);
        lemma_subrange_of_concat(prev, v[k - 1], j * n, j * n + n);
    }
}

proof fn lemma_subrange_subrange(s: Seq<u64>, a: int, len: int, c: int, m: int)
    requires
        0 <= a,
        a + len <= s.len(),
        0 <= c,
        c + m <= len,
        0 <= m,
    ensures
        s.subrange(a, a + len).subrange(c, c + m) == s.subrange(a + c, a + c + m),
{
    assert(s.subrange(a, a + len).subrange(c, c + m) =~= s.subrange(a + c, a + c + m));
}

/// The fields of a written row read back as written.
proof fn lemma_row_readback(
    acc: Seq<Seq<u64>>,
    g: Seq<Seq<Seq<Seq<u64>>>>,
    mask: u64,
    counter: u64,
    xbits: Seq<Seq<Seq<u64>>>,
    n: nat,
    k: nat,
    ell: nat,
    flags: Seq<u64>,
)
    requires
        n > 0,
        ct_wf(acc, n, k),
        crate::ggsw_ct::ggsw_wf(g, n, k, ell),
        xbits.len() == k,
        forall|i: int| 0 <= i < k ==> (#[trigger] xbits[i]).len() == n,
        forall|i: int, j: int| 0 <= i < k && 0 <= j < n ==> (#[trigger] xbits[i][j]).len() == NUM_BITS,
        flags.len() == 3,
    ensures
        ({
            let lv = row_content(acc, g, mask, counter, xbits) + flags;
            let mc = mask_col(n, k, ell);
            let fc = flags_col(n, k, ell);
            &&& lv.len() == fc + 3
            &&& glwe_at(lv, 0, n, k) == acc
            &&& lv[mc] == mask
            &&& lv.subrange(mc + 1, mc + 1 + NUM_BITS) == to_bits(row_mask(mask, counter), NUM_BITS as nat)
            &&& bit_dec_at(lv, bits_col(n, k, ell), n, k) == xbits
            &&& lv[fc] == flags[0]
            &&& lv[fc + 1] == flags[1]
            &&& lv[fc + 2] == flags[2]
        }),
{
    let a = concat(acc, acc.len());
    let gf = ggsw_flat(g);
    let mb = to_bits(row_mask(mask, counter), NUM_BITS as nat);
    let xf = bits_flat(xbits);
    let lv = a + gf + seq![mask] + mb + xf + flags;
    assert(row_content(acc, g, mask, counter, xbits) + flags == lv);
    crate::glwe_ct::lemma_concat_len(acc, k, n);
    lemma_ggsw_flat_len(g, n, k, ell);
    crate::decompose::lemma_to_bits_wf(row_mask(mask, counter), NUM_BITS as nat);
    let xouter = Seq::new(xbits.len(), |i: int| concat(xbits[i], xbits[i].len()));
    assert forall|i: int| 0 <= i < k implies (#[trigger] xouter[i]).len() == n * NUM_BITS by {
        crate::glwe_ct::lemma_concat_len(xbits[i], n, NUM_BITS as nat);
    }
    crate::glwe_ct::lemma_concat_len(xouter, k, (n * NUM_BITS) as nat);
    let mc = mask_col(n, k, ell);
    let bc = bits_col(n, k, ell);
    let fc = flags_col(n, k, ell);
    assert(a.len() == ggsw_col(n, k));
    assert(lv.len() == fc + 3);
    // accumulator
    let ga = glwe_at(lv, 0, n, k);
    assert forall|i: int| 0 <= i < k implies #[trigger] ga[i] == acc[i] by {
        lemma_concat_part(acc, k, n, i);
        assert(lv == a + (gf + seq![mask] + mb + xf + flags));
        lemma_subrange_of_concat(a, gf + seq![mask] + mb + xf + flags, i * n, i * n + n);
    }
    assert(ga =~= acc);
    // mask and its bits
    assert(lv == (a + gf) + (seq![mask] + mb + xf + flags));
    assert(lv[mc] == mask);
    assert(lv.subrange(mc + 1, mc + 1 + NUM_BITS) =~= mb);
    // flags
    assert(lv[fc] == flags[0]);
    assert(lv[fc + 1] == flags[1]);
    assert(lv[fc + 2] == flags[2]);
    // bits of the external product's input
    let pre = a + gf + seq![mask] + mb;
    assert(pre.len() == bc);
    assert(lv == pre + (xf + flags));
    let bd = bit_dec_at(lv, bc, n, k);
    assert forall|i: int, j: int| 0 <= i < k && 0 <= j < n implies #[trigger] bd[i][j] == xbits[i][j] by {
        lemma_concat_part(xouter, k, (n * NUM_BITS) as nat, i);
        assert forall|t: int| 0 <= t < xbits[i].len() implies (#[trigger] xbits[i][t]).len() == NUM_BITS by {}
        lemma_concat_part(xbits[i], n, NUM_BITS as nat, j);
        let off = i * (n * NUM_BITS);
        lemma_subrange_of_concat(pre, xf + flags, bc + off + j * NUM_BITS, bc + off + j * NUM_BITS + NUM_BITS);
        lemma_subrange_of_concat(xf, flags, off + j * NUM_BITS, off + j * NUM_BITS + NUM_BITS);
        lemma_subrange_subrange(xf, off, (n * NUM_BITS) as int, j * NUM_BITS, NUM_BITS as int);
    }
    assert forall|i: int| 0 <= i < k implies #[trigger] bd[i] == xbits[i] by {
        assert(bd[i] =~= xbits[i]);
    }
    assert(bd =~= xbits);
}

/// A padding row, all zeros, satisfies every constraint.
pub proof fn lemma_pad_row_constraints(params: &NttParams, k: nat, ell: nat, logb: nat)
    requires
        params.wf(),
    ensures
        all_zero(row_constraints(params, Seq::new((flags_col(params.n as nat, k, ell) + 3) as nat, |c: int| 0u64), k, ell, logb)),
{
    let n = params.n as nat;
    let lv = Seq::new((flags_col(n, k, ell) + 3) as nat, |c: int| 0u64);
    let mc = mask_col(n, k, ell);
    let fc = flags_col(n, k, ell);
    assert(k * n >= 0 && k * (ell * (k * n)) >= 0 && k * (n * NUM_BITS) >= 0) by (nonlinear_arith);
    vstd::arithmetic::power2::lemma_pow2_pos(params.log_n as nat);
    crate::decompose::lemma_small_field_values();
    vstd::arithmetic::div_mod::lemma_small_mod(0, p() as nat);
    let mb = lv.subrange(mc + 1, mc + 1 + NUM_BITS);
    let bc = crate::decompose::bool_constraints(mb);
    assert(all_zero(bc));
    let fm = crate::decompose::select(lv[fc + 1] as int, fneg(lv[mc] as int), lv[mc] as int);
    let mid = seq![fmul(lv[fc] as int, fsub(fm, bits_val(mb) % p())) as u64];
    assert(lv[fc] == 0);
    assert(0 * fsub(fm, bits_val(mb) % p()) == 0);
    assert(all_zero(mid));
    let acc = glwe_at(lv, 0, n, k);
    let shifted = rotate_ct(acc, bits_val(mb) % p(), n);
    let xin = select_ct(lv[fc + 2], acc, ct_sub(shifted, acc));
    let xb = bit_dec_at(lv, bits_col(n, k, ell), n, k);
    lemma_row_fields_wf(lv, 0, n, k, ell);
    lemma_row_fields_wf(lv, bits_col(n, k, ell), n, k, ell);
    assert forall|a: int| 0 <= a < k implies (#[trigger] xb[a]).len() == xin[a].len() by {
        assert(acc[a].len() == n);
    }
    assert forall|a: int, j: int| 0 <= a < k && 0 <= j < xin[a].len() implies (#[trigger] xb[a][j]).len()
        == NUM_BITS by {
        assert(acc[a].len() == n);
    }
    assert forall|a: int, j: int, t: int| 0 <= a < k && 0 <= j < xin[a].len() && 0 <= t < NUM_BITS implies #[trigger] xb[a][j][t] == 0 by {
        assert(acc[a].len() == n);
        crate::step::lemma_bit_dec_entry(lv, bits_col(n, k, ell), n, k, a, j, t);
    }
    crate::ggsw_ct::lemma_ct_constraints_idle(xin, xb, logb, k);
    lemma_all_zero_concat(bc, mid);
    lemma_all_zero_concat(bc + mid, crate::ggsw_ct::ct_constraints(0, xin, xb, logb, k));
}

/// The configuration of a blind-rotation trace: the transform parameters,
/// which fix the ring dimension, and the log of the digit base.
pub struct VpbsStark {
    pub params: NttParams,
    pub logb: usize,
}

impl VpbsStark {
    /// Evaluates one trace row: reads the accumulator, the GGSW ciphertext,
    /// the mask element and its bits, the bits of the external product's input
    /// and the three flags from their columns, and runs [`eval_step_circuit`]
    /// on them, appending its constraints. The result is the accumulator that
    /// the row produces.
    pub fn eval_packed_generic(&self, constraints: &mut Vec<u64>, lv: &[u64], k: usize, ell: usize) -> (r:
        GlweCtExp)
        requires
            self.params.wf(),
            0 < self.logb < 64,
            k > 0,
            0 < ell <= num_limbs(self.logb as nat),
            lv@.len() == flags_col(self.params.n as nat, k as nat, ell as nat) + 3,
            canonical(lv@),
        ensures
            ({
                let n = self.params.n as nat;
                let acc = glwe_at(lv@, 0, n, k as nat);
                let g = ggsw_at(lv@, ggsw_col(n, k as nat), n, k as nat, ell as nat);
                let mc = mask_col(n, k as nat, ell as nat);
                let mb = lv@.subrange(mc + 1, mc + 1 + NUM_BITS);
                let xb = bit_dec_at(lv@, bits_col(n, k as nat, ell as nat), n, k as nat);
                let fc = flags_col(n, k as nat, ell as nat);
                &&& r.wf(n, k as nat)
                &&& final(constraints)@ == old(constraints)@ + row_constraints(
                    &self.params,
                    lv@,
                    k as nat,
                    ell as nat,
                    self.logb as nat,
                )
                &&& (forall|i: int, j: int| 0 <= i < k && 0 <= j < n ==> all_bits(#[trigger] xb[i][j]))
                    ==> r@ == eval_step_output(
                    acc,
                    rotate_ct(acc, bits_val(mb) % p(), n),
                    combine_products(&self.params, eval_products(&self.params, g, xb, self.logb as nat), k as nat),
                    lv@[fc + 1],
                    lv@[fc + 2],
                )
            }),
    {
        let n = self.params.n;
        let ghost nn = n as nat;
        let ghost kk = k as nat;
        let ghost ll = ell as nat;
        proof {
            lemma_row_fields_wf(lv@, 0, nn, kk, ll);
            lemma_row_fields_wf(lv@, ggsw_col(nn, kk), nn, kk, ll);
            lemma_row_fields_wf(lv@, bits_col(nn, kk, ll), nn, kk, ll);
            assert(k * n >= 0 && k * (ell * (k * n)) >= 0 && k * (n * NUM_BITS) >= 0) by (nonlinear_arith);
        }
        let mut col: usize = 0;
        let acc = read_glwe_ct(lv, &mut col, n, k);
        assert(acc@ =~= glwe_at(lv@, 0, nn, kk));
        let ggsw = read_ggsw_ct(lv, &mut col, n, k, ell);
        assert(ggsw@ =~= ggsw_at(lv@, ggsw_col(nn, kk), nn, kk, ll));
        let mask = lv[col];
        col = col + 1;
        let mask_bits = read_array(lv, &mut col, NUM_BITS);
        let xbits = read_bit_dec(lv, &mut col, n, k);
        let non_pad_flag = lv[col];
        let is_first_row = lv[col + 1];
        let is_last_non_pad_row = lv[col + 2];
        proof {
            let xb = bit_dec_at(lv@, bits_col(nn, kk, ll), nn, kk);
            assert(ggsw@[0].len() == ell);
            assert forall|i: int| 0 <= i < k implies (#[trigger] xbits@[i])@.len() == n && canonical_rows(
                views(xbits@[i]@),
                NUM_BITS as nat,
            ) by {
                assert(views(xbits@[i]@) == bit_views(xbits@)[i]);
                assert forall|j: int| 0 <= j < n implies #[trigger] views(xbits@[i]@)[j] == xb[i][j] by {}
            }
            assert forall|t: int| 0 <= t < mask_bits@.len() implies (#[trigger] mask_bits@[t]) < ORDER by {
                assert(mask_bits@[t] == lv@[mask_col(nn, kk, ll) + 1 + t]);
            }
        }
        let ghost mc = mask_col(nn, kk, ll);
        let ghost fc = flags_col(nn, kk, ll);
        assert(mask == lv@[mc]);
        assert(mask_bits@ == lv@.subrange(mc + 1, mc + 1 + NUM_BITS));
        assert(bit_views(xbits@) == bit_dec_at(lv@, bits_col(nn, kk, ll), nn, kk));
        assert(non_pad_flag == lv@[fc]);
        assert(is_first_row == lv@[fc + 1]);
        assert(is_last_non_pad_row == lv@[fc + 2]);
        let r = eval_step_circuit(
            constraints,
            &self.params,
            &acc,
            &ggsw,
            mask,
            &mask_bits,
            &xbits,
            non_pad_flag,
            is_first_row,
            is_last_non_pad_row,
            self.logb,
        );
        proof {
            let xb = bit_dec_at(lv@, bits_col(nn, kk, ll), nn, kk);
            if forall|i: int, j: int| 0 <= i < k && 0 <= j < n ==> all_bits(#[trigger] xb[i][j]) {
                assert forall|i: int, j: int| 0 <= i < k && 0 <= j < n implies all_bits(
                    #[trigger] xbits@[i]@[j]@,
                ) by {
                    assert(views(xbits@[i]@) == bit_views(xbits@)[i]);
                    assert(xb[i][j] == xbits@[i]@[j]@);
                }
            }
        }
        r
    }

    /// Writes one row's witness from column `*cur_col`: the accumulator, the
    /// GGSW ciphertext, the mask element, the bits of the mask (negated on the
    /// first row) and the bits of the external product's input.
    pub fn fill_row(
        &self,
        lv: &mut Vec<u64>,
        cur_col: &mut usize,
        cur_acc_in: &GlweCtExp,
        ggsw_ct: &GgswCtExp,
        mask_ele: u64,
        xprod_in_bit_dec: &Vec<Vec<Vec<u64>>>,
        counter: u64,
    )
        requires
            mask_ele < ORDER,
            *old(cur_col) + row_content(cur_acc_in@, ggsw_ct@, mask_ele, counter, bit_views(xprod_in_bit_dec@)).len()
                <= old(lv)@.len(),
        ensures
            final(lv)@ == splice(
                old(lv)@,
                *old(cur_col) as int,
                row_content(cur_acc_in@, ggsw_ct@, mask_ele, counter, bit_views(xprod_in_bit_dec@)),
            ),
            *final(cur_col) == *old(cur_col) + row_content(
                cur_acc_in@,
                ggsw_ct@,
                mask_ele,
                counter,
                bit_views(xprod_in_bit_dec@),
            ).len(),
    {
        let ghost lv0 = lv@;
        let ghost c0 = *cur_col as int;
        let ghost a = concat(cur_acc_in@, cur_acc_in@.len());
        let ghost g = ggsw_flat(ggsw_ct@);
        let ghost x = bits_flat(bit_views(xprod_in_bit_dec@));
        write_glwe_ct(lv, cur_acc_in, cur_col);
        write_ggsw_ct(lv, ggsw_ct, cur_col);
        proof {
            lemma_splice_twice(lv0, c0, a, g);
        }
        let one = vec![mask_ele];
        write_array(lv, cur_col, &one);
        proof {
            lemma_splice_twice(lv0, c0, a + g, one@);
        }
        let neg_first_mask = if counter == 1 { field_neg(mask_ele) } else { mask_ele };
        let mask_bit_dec = decimal_to_binary(neg_first_mask);
        write_array(lv, cur_col, &mask_bit_dec);
        proof {
            lemma_splice_twice(lv0, c0, a + g + one@, mask_bit_dec@);
        }
        let flat_bits = flatten_bits(xprod_in_bit_dec);
        write_array(lv, cur_col, &flat_bits);
        proof {
            lemma_splice_twice(lv0, c0, a + g + one@ + mask_bit_dec@, x);
        }
    }

    /// One step of the recurrence and the trace row that records it.
    fn step_row(
        &self,
        acc: &GlweCtExp,
        ggsw: &GgswCtExp,
        mask: u64,
        counter: u64,
        n_lwe: usize,
        width: usize,
        first: u64,
        last: u64,
    ) -> (r: (GlweCtExp, Vec<u64>))
        requires
            self.params.wf(),
            ggsw@.len() > 0,
            ggsw.wf(self.params.n as nat, ggsw@.len(), ggsw@[0].len()),
            0 < ggsw@[0].len() <= num_limbs(self.logb as nat),
            acc.wf(self.params.n as nat, ggsw@.len()),
            mask < ORDER,
            n_lwe + 2 <= usize::MAX / 2,
            0 < self.logb < 64,
            width == ggsw@.len() * self.params.n + ggsw@.len() * (ggsw@[0].len() * (ggsw@.len() * self.params.n)) + 1
                + NUM_BITS + ggsw@.len() * (self.params.n * NUM_BITS) + 3,
        ensures
            r.0@ == step_output(&self.params, acc@, ggsw@, mask, counter, n_lwe as nat, self.logb as nat),
            r.0.wf(self.params.n as nat, ggsw@.len()),
            r.1@ == row_content(
                acc@,
                ggsw@,
                mask,
                counter,
                ct_bits(xprod_input(acc@, mask, counter, self.params.n as nat, n_lwe + 2)),
            ) + seq![1u64, first, last],
    {
        let params = &self.params;
        let logb = self.logb;
        let n = params.n;
        let k = ggsw.glev_cts.len();
        let ghost ell = ggsw@[0].len();
        let (next, xbits) = generate_build_circuit_input(params, acc, ggsw, mask, counter, n_lwe as u64, logb);
        let ghost xin = xprod_input(acc@, mask, counter, n as nat, n_lwe + 2);
        proof {
            crate::glwe_ct::lemma_concat_len(acc@, k as nat, n as nat);
            lemma_ggsw_flat_len(ggsw@, n as nat, k as nat, ell);
            crate::decompose::lemma_to_bits_wf(row_mask(mask, counter), NUM_BITS as nat);
            assert(xin.len() == k);
            assert forall|a: int| 0 <= a < k implies (#[trigger] xin[a]).len() == n by {
                assert(acc@[a].len() == n);
            }
            lemma_bits_flat_len(xin, n as nat, k as nat);
        }
        let mut lv: Vec<u64> = vec![0u64; width];
        let mut cur_col: usize = 0;
        let ghost content = row_content(acc@, ggsw@, mask, counter, bit_views(xbits@));
        self.fill_row(&mut lv, &mut cur_col, acc, ggsw, mask, &xbits, counter);
        assert(content.len() + 3 == width);
        lv.set(width - 3, 1);
        lv.set(width - 2, first);
        lv.set(width - 1, last);
        assert(lv@ =~= content + seq![1u64, first, last]);
        (next, lv)
    }

    /// Runs the blind rotation over the LWE ciphertext `ct` (its mask elements,
    /// then its body) from the accumulator `acc0`, with the bootstrapping key
    /// `bsk` and the key-switching key `ksk`, and returns the trace rows (padded
    /// with rows of zeros) and the final accumulator.
    pub fn generate_trace(
        &self,
        acc0: &GlweCtExp,
        bsk: &Vec<GgswCtExp>,
        ksk: &GgswCtExp,
        ct: &Vec<u64>,
    ) -> (r: (Vec<Vec<u64>>, GlweCtExp))
        requires
            self.params.wf(),
            ksk@.len() > 0,
            0 < ksk@[0].len() <= num_limbs(self.logb as nat),
            ksk.wf(self.params.n as nat, ksk@.len(), ksk@[0].len()),
            forall|i: int| 0 <= i < bsk@.len() ==> (#[trigger] bsk@[i]).wf(self.params.n as nat, ksk@.len(), ksk@[0].len()),
            acc0.wf(self.params.n as nat, ksk@.len()),
            ct@.len() == bsk@.len() + 1,
            canonical(ct@),
            0 < self.logb < 64,
            bsk@.len() + 2 <= usize::MAX / 2,
            self.params.n * ksk@.len() + ksk@.len() * (ksk@[0].len() * (ksk@.len() * self.params.n)) + 1 + NUM_BITS
                + NUM_BITS * self.params.n * ksk@.len() + 3 <= usize::MAX,
        ensures
            ({
                let dummy = crate::ggsw_ct::ggsw_zero(self.params.n as nat, ksk@.len(), ksk@[0].len());
                let bv = bsk@.map_values(|g: GgswCtExp| g@);
                let steps = bsk@.len() + 2;
                &&& r.1@ == acc_before(&self.params, acc0@, bv, ksk@, dummy, ct@, self.logb as nat, steps as nat)
                &&& r.0@.len() == pad_rows(steps as nat, 8)
                &&& forall|i: int|
                    0 <= i < steps ==> (#[trigger] r.0@[i])@ == trace_row(
                        &self.params,
                        acc0@,
                        bv,
                        ksk@,
                        dummy,
                        ct@,
                        self.logb as nat,
                        i as nat,
                    )
                &&& forall|i: int|
                    0 <= i < r.0@.len() ==> all_zero(
                        #[trigger] row_constraints(&self.params, r.0@[i]@, ksk@.len(), ksk@[0].len(), self.logb as nat),
                    )
                &&& forall|i: int|
                    steps <= i < r.0@.len() ==> (#[trigger] r.0@[i])@ == Seq::new(
                        (self.params.n * ksk@.len() + ksk@.len() * (ksk@[0].len() * (ksk@.len() * self.params.n)) + 1
                            + NUM_BITS + NUM_BITS * self.params.n * ksk@.len() + 3) as nat,
                        |j: int| 0u64,
                    )
            }),
    {
        let params = &self.params;
        let logb = self.logb;
        let n = params.n;
        let k = ksk.glev_cts.len();
        let ell = ksk.glev_cts[0].glwe_cts.len();
        let n_lwe = bsk.len();
        let steps = n_lwe + 2;
        let ghost dummy_v = crate::ggsw_ct::ggsw_zero(n as nat, k as nat, ell as nat);
        let ghost bv = bsk@.map_values(|g: GgswCtExp| g@);
        proof {
            vstd::arithmetic::power2::lemma_pow2_pos(params.log_n as nat);
            assert(ksk@[0] == ksk.glev_cts@[0]@);
        }
        let width = row_width(n, k, ell);
        let dummy = GgswCtExp::dummy_ct(n, k, ell);
        let total_rows = num_rows(steps);
        let mut rows: Vec<Vec<u64>> = Vec::with_capacity(total_rows);
        let mut acc = acc0.copy();
        let mut i: usize = 0;
        proof {
            assert(n * k == k * n && NUM_BITS * n * k == k * (n * NUM_BITS)) by (nonlinear_arith);
        }
        while i < steps
            invariant
                    *params == self.params,
                    logb == self.logb,
                params.wf(),
                n == params.n,
                k == ksk@.len(),
                k > 0,
                ell == ksk@[0].len(),
                0 < ell <= num_limbs(logb as nat),
                ksk.wf(n as nat, k as nat, ell as nat),
                forall|i: int| 0 <= i < bsk@.len() ==> (#[trigger] bsk@[i]).wf(n as nat, k as nat, ell as nat),
                bv == bsk@.map_values(|g: GgswCtExp| g@),
                ct@.len() == n_lwe + 1,
                canonical(ct@),
                0 < logb < 64,
                n_lwe == bsk@.len(),
                steps == n_lwe + 2,
                steps <= usize::MAX / 2,
                width == k * n + k * (ell * (k * n)) + 1 + NUM_BITS + k * (n * NUM_BITS) + 3,
                dummy@ == dummy_v,
                dummy_v == crate::ggsw_ct::ggsw_zero(n as nat, k as nat, ell as nat),
                dummy.wf(n as nat, k as nat, ell as nat),
                i <= steps,
                acc@ == acc_before(params, acc0@, bv, ksk@, dummy_v, ct@, logb as nat, i as nat),
                acc.wf(n as nat, k as nat),
                rows@.len() == i,
                forall|j: int|
                    0 <= j < i ==> (#[trigger] rows@[j])@ == trace_row(
                        params,
                        acc0@,
                        bv,
                        ksk@,
                        dummy_v,
                        ct@,
                        logb as nat,
                        j as nat,
                    ),
                forall|j: int|
                    0 <= j < i ==> all_zero(
                        #[trigger] row_constraints(params, rows@[j]@, k as nat, ell as nat, logb as nat),
                    ),
            decreases steps - i,
        {
            let ggsw: &GgswCtExp = if i == 0 { &dummy } else if i <= n_lwe { &bsk[i - 1] } else { ksk };
            let mask: u64 = if i == 0 { ct[n_lwe] } else if i <= n_lwe { ct[i - 1] } else { 0 };
            let counter: u64 = (i + 1) as u64;
            proof {
                assert(ggsw@ == trace_ggsw(bv, ksk@, dummy_v, i as int));
                assert(mask == trace_mask(ct@, i as int));
                assert(ggsw.wf(n as nat, k as nat, ell as nat));
            }
            let first: u64 = if i == 0 { 1 } else { 0 };
            let last: u64 = if i == n_lwe + 1 { 1 } else { 0 };
            let (next, lv) = self.step_row(&acc, ggsw, mask, counter, n_lwe, width, first, last);
            proof {
                let xin = xprod_input(acc@, mask, counter, n as nat, n_lwe + 2 as int);
                let xb = ct_bits(xin);
                assert(xin.len() == k);
                assert forall|a: int| 0 <= a < k implies (#[trigger] xb[a]).len() == n by {
                    assert(acc@[a].len() == n);
                    assert(xin[a].len() == n);
                }
                assert forall|a: int, b: int| 0 <= a < k && 0 <= b < n implies (#[trigger] xb[a][b]).len()
                    == NUM_BITS by {
                    assert(acc@[a].len() == n);
                    assert(xin[a].len() == n);
                    crate::decompose::lemma_to_bits_wf(xin[a][b] as int, NUM_BITS as nat);
                }
                vstd::arithmetic::power2::lemma_pow2_pos(params.log_n as nat);
                lemma_row_readback(acc@, ggsw@, mask, counter, xb, n as nat, k as nat, ell as nat, seq![1u64, first, last]);
                crate::step::lemma_step_constraints_zero(acc@, n as nat, k as nat, mask, counter, n_lwe as nat, logb as nat);
                assert(all_zero(row_constraints(params, lv@, k as nat, ell as nat, logb as nat)));
            }
            rows.push(lv);
            acc = next;
            i += 1;
        }
        while i < total_rows
            invariant
                steps <= i <= total_rows,
                rows@.len() == i,
                forall|j: int|
                    0 <= j < steps ==> (#[trigger] rows@[j])@ == trace_row(
                        params,
                        acc0@,
                        bv,
                        ksk@,
                        dummy_v,
                        ct@,
                        logb as nat,
                        j as nat,
                    ),
                forall|j: int|
                    steps <= j < i ==> (#[trigger] rows@[j])@ == Seq::new(width as nat, |c: int| 0u64),
                forall|j: int|
                    0 <= j < i ==> all_zero(
                        #[trigger] row_constraints(params, rows@[j]@, k as nat, ell as nat, logb as nat),
                    ),
                *params == self.params,
                params.wf(),
                n == params.n,
                width == k * n + k * (ell * (k * n)) + 1 + NUM_BITS + k * (n * NUM_BITS) + 3,
            decreases total_rows - i,
        {
            proof {
                lemma_pad_row_constraints(params, k as nat, ell as nat, logb as nat);
                assert(flags_col(n as nat, k as nat, ell as nat) + 3 == width);
            }
            let z = vec![0u64; width];
            assert(z@ =~= Seq::new(width as nat, |c: int| 0u64));
            rows.push(z);
            i += 1;
        }
        (rows, acc)
    }
}

} // verus!
