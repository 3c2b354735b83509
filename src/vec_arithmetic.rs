//! Elementwise arithmetic over vectors of field elements.

use crate::field::{canonical, fadd, fmul, fsub, field_add, field_mul, field_sub, ORDER};
use vstd::prelude::*;

verus! {

/// Elementwise sum.
pub open spec fn vadd(a: Seq<u64>, b: Seq<u64>) -> Seq<u64> {
    Seq::new(a.len(), |i: int| fadd(a[i] as int, b[i] as int) as u64)
}

/// Elementwise difference.
pub open spec fn vsub(a: Seq<u64>, b: Seq<u64>) -> Seq<u64> {
    Seq::new(a.len(), |i: int| fsub(a[i] as int, b[i] as int) as u64)
}

/// Elementwise product.
pub open spec fn vmul(a: Seq<u64>, b: Seq<u64>) -> Seq<u64> {
    Seq::new(a.len(), |i: int| fmul(a[i] as int, b[i] as int) as u64)
}

/// Every entry multiplied by the scalar `c`.
pub open spec fn vscale(c: u64, a: Seq<u64>) -> Seq<u64> {
    Seq::new(a.len(), |i: int| fmul(c as int, a[i] as int) as u64)
}

/// Elementwise `l * r + acc`.
pub open spec fn vmul_add(l: Seq<u64>, r: Seq<u64>, acc: Seq<u64>) -> Seq<u64> {
    Seq::new(l.len(), |i: int| fadd(fmul(l[i] as int, r[i] as int), acc[i] as int) as u64)
}

/// The vector of `n` zeros.
pub open spec fn zeros(n: nat) -> Seq<u64> {
    Seq::new(n, |i: int| 0u64)
}

/// The views of a list of vectors.
pub open spec fn views(v: Seq<Vec<u64>>) -> Seq<Seq<u64>> {
    v.map_values(|x: Vec<u64>| x@)
}

/// Every vector of `v` has length `n` and canonical entries.
pub open spec fn rows_wf(v: Seq<Seq<u64>>, n: nat) -> bool {
    forall|i: int| 0 <= i < v.len() ==> (#[trigger] v[i]).len() == n && canonical(v[i])
}

/// Sum of the first `k` vectors of `terms`, each of length `n`, folded from zero.
pub open spec fn vsum(terms: Seq<Seq<u64>>, k: nat, n: nat) -> Seq<u64>
    decreases k,
{
    if k == 0 {
        zeros(n)
    } else {
        vadd(vsum(terms, (k - 1) as nat, n), terms[k - 1])
    }
}

/// Inner product of the first `k` rows of `l` and `r`: `sum_i l[i] * r[i]`, elementwise.
pub open spec fn vinner(l: Seq<Seq<u64>>, r: Seq<Seq<u64>>, k: nat, n: nat) -> Seq<u64>
    decreases k,
{
    if k == 0 {
        zeros(n)
    } else {
        vmul_add(l[k - 1], r[k - 1], vinner(l, r, (k - 1) as nat, n))
    }
}

pub proof fn lemma_views_push(v: Seq<Vec<u64>>, x: Vec<u64>)
    ensures
        views(v.push(x)) == views(v).push(x@),
{
    assert(views(v.push(x)) =~= views(v).push(x@));
}

pub proof fn lemma_vsum_wf(terms: Seq<Seq<u64>>, k: nat, n: nat)
    requires
        k <= terms.len(),
        rows_wf(terms, n),
    ensures
        vsum(terms, k, n).len() == n,
        canonical(vsum(terms, k, n)),
    decreases k,
{
    if k > 0 {
        lemma_vsum_wf(terms, (k - 1) as nat, n);
    }
}

pub proof fn lemma_vinner_wf(l: Seq<Seq<u64>>, r: Seq<Seq<u64>>, k: nat, n: nat)
    requires
        k <= l.len(),
        k <= r.len(),
        rows_wf(l, n),
        rows_wf(r, n),
    ensures
        vinner(l, r, k, n).len() == n,
        canonical(vinner(l, r, k, n)),
    decreases k,
{
    if k > 0 {
        lemma_vinner_wf(l, r, (k - 1) as nat, n);
    }
}

/// Elementwise sum of two vectors of equal length.
pub fn vec_add(left: &[u64], right: &[u64]) -> (r: Vec<u64>)
    requires
        left@.len() == right@.len(),
        canonical(left@),
        canonical(right@),
    ensures
        r@ == vadd(left@, right@),
        canonical(r@),
{
    let mut out: Vec<u64> = Vec::with_capacity(left.len());
    let mut i: usize = 0;
    while i < left.len()
        invariant
            i <= left@.len() == right@.len(),
            canonical(left@),
            canonical(right@),
            out@ == vadd(left@, right@).take(i as int),
        decreases left@.len() - i,
    {
        out.push(field_add(left[i], right[i]));
        i += 1;
        assert(out@ =~= vadd(left@, right@).take(i as int));
    }
    assert(out@ =~= vadd(left@, right@));
    out
}

/// Elementwise difference of two vectors of equal length.
pub fn vec_sub(left: &[u64], right: &[u64]) -> (r: Vec<u64>)
    requires
        left@.len() == right@.len(),
        canonical(left@),
        canonical(right@),
    ensures
        r@ == vsub(left@, right@),
        canonical(r@),
{
    let mut out: Vec<u64> = Vec::with_capacity(left.len());
    let mut i: usize = 0;
    while i < left.len()
        invariant
            i <= left@.len() == right@.len(),
            canonical(left@),
            canonical(right@),
            out@ == vsub(left@, right@).take(i as int),
        decreases left@.len() - i,
    {
        out.push(field_sub(left[i], right[i]));
        i += 1;
        assert(out@ =~= vsub(left@, right@).take(i as int));
    }
    assert(out@ =~= vsub(left@, right@));
    out
}

/// Elementwise product of two vectors of equal length.
pub fn vec_mul(left: &[u64], right: &[u64]) -> (r: Vec<u64>)
    requires
        left@.len() == right@.len(),
        canonical(left@),
        canonical(right@),
    ensures
        r@ == vmul(left@, right@),
        canonical(r@),
{
    let mut out: Vec<u64> = Vec::with_capacity(left.len());
    let mut i: usize = 0;
    while i < left.len()
        invariant
            i <= left@.len() == right@.len(),
            canonical(left@),
            canonical(right@),
            out@ == vmul(left@, right@).take(i as int),
        decreases left@.len() - i,
    {
        out.push(field_mul(left[i], right[i]));
        i += 1;
        assert(out@ =~= vmul(left@, right@).take(i as int));
    }
    assert(out@ =~= vmul(left@, right@));
    out
}

/// Every entry of `right` multiplied by the scalar `left`.
pub fn scalar_mul(left: u64, right: &[u64]) -> (r: Vec<u64>)
    requires
        left < ORDER,
        canonical(right@),
    ensures
        r@ == vscale(left, right@),
        canonical(r@),
{
    let mut out: Vec<u64> = Vec::with_capacity(right.len());
    let mut i: usize = 0;
    while i < right.len()
        invariant
            i <= right@.len(),
            left < ORDER,
            canonical(right@),
            out@ == vscale(left, right@).take(i as int),
        decreases right@.len() - i,
    {
        out.push(field_mul(left, right[i]));
        i += 1;
        assert(out@ =~= vscale(left, right@).take(i as int));
    }
    assert(out@ =~= vscale(left, right@));
    out
}

/// Elementwise `left * right + acc`, one fused step of an inner product.
pub fn vec_mul_add_native(left: &[u64], right: &[u64], acc: &[u64]) -> (r: Vec<u64>)
    requires
        left@.len() == right@.len(),
        left@.len() == acc@.len(),
        canonical(left@),
        canonical(right@),
        canonical(acc@),
    ensures
        r@ == vmul_add(left@, right@, acc@),
        canonical(r@),
{
    let mut out: Vec<u64> = Vec::with_capacity(left.len());
    let mut i: usize = 0;
    while i < left.len()
        invariant
            i <= left@.len() == right@.len() == acc@.len(),
            canonical(left@),
            canonical(right@),
            canonical(acc@),
            out@ == vmul_add(left@, right@, acc@).take(i as int),
        decreases left@.len() - i,
    {
        let m = field_mul(left[i], right[i]);
        out.push(field_add(m, acc[i]));
        i += 1;
        assert(out@ =~= vmul_add(left@, right@, acc@).take(i as int));
    }
    assert(out@ =~= vmul_add(left@, right@, acc@));
    out
}

/// Sum of a non-empty list of vectors of equal length.
pub fn vec_add_many(terms: &Vec<Vec<u64>>) -> (r: Vec<u64>)
    requires
        terms@.len() > 0,
        rows_wf(views(terms@), terms@[0]@.len()),
    ensures
        r@ == vsum(views(terms@), terms@.len(), terms@[0]@.len()),
{
    let n = terms[0].len();
    let ghost t = views(terms@);
    let mut acc: Vec<u64> = vec![0u64; n];
    assert(acc@ =~= zeros(n as nat));
    let mut k: usize = 0;
    while k < terms.len()
        invariant
            k <= terms@.len(),
            t == views(terms@),
            n == terms@[0]@.len(),
            rows_wf(t, n as nat),
            acc@ == vsum(t, k as nat, n as nat),
        decreases terms@.len() - k,
    {
        proof {
            lemma_vsum_wf(t, k as nat, n as nat);
            assert(t[k as int] == terms@[k as int]@);
        }
        acc = vec_add(&acc, &terms[k]);
        k += 1;
    }
    acc
}

/// Inner product of two equal-length lists of vectors of one common length:
/// `sum_i left[i] * right[i]`, elementwise.
pub fn vec_inner(left: &Vec<Vec<u64>>, right: &Vec<Vec<u64>>) -> (r: Vec<u64>)
    requires
        left@.len() > 0,
        left@.len() == right@.len(),
        rows_wf(views(left@), left@[0]@.len()),
        rows_wf(views(right@), left@[0]@.len()),
    ensures
        r@ == vinner(views(left@), views(right@), left@.len(), left@[0]@.len()),
        canonical(r@),
{
    let n = left[0].len();
    let ghost l = views(left@);
    let ghost rt = views(right@);
    let mut acc: Vec<u64> = vec![0u64; n];
    assert(acc@ =~= zeros(n as nat));
    let mut k: usize = 0;
    while k < left.len()
        invariant
            k <= left@.len() == right@.len(),
            l == views(left@),
            rt == views(right@),
            n == left@[0]@.len(),
            rows_wf(l, n as nat),
            rows_wf(rt, n as nat),
            acc@ == vinner(l, rt, k as nat, n as nat),
        decreases left@.len() - k,
    {
        proof {
            lemma_vinner_wf(l, rt, k as nat, n as nat);
            assert(l[k as int] == left@[k as int]@);
            assert(rt[k as int] == right@[k as int]@);
        }
        acc = vec_mul_add_native(&left[k], &right[k], &acc);
        k += 1;
    }
    proof {
        lemma_vinner_wf(l, rt, k as nat, n as nat);
    }
    acc
}

} // verus!
