//! Negacyclic number-theoretic transform over the Goldilocks field: an
//! iterative butterfly network of `log2(N)` stages, forward and backward.

use crate::field::{
    canonical, fadd, field_add, field_mul, field_pow, field_sub, fmul, fpow, fsub, lemma_butterfly_pair,
    lemma_fadd_swap, lemma_fmul_assoc, lemma_fmul_comm, lemma_fmul_distrib_add, lemma_fmul_distrib_sub,
    lemma_fmul_one, lemma_fpow_inverse, lemma_inverse_mul, p, ORDER,
};
use crate::vec_arithmetic::{scalar_mul, vadd, vscale};
use vstd::arithmetic::div_mod::lemma_fundamental_div_mod_converse;
use vstd::arithmetic::power2::{lemma_pow2_adds, lemma_pow2_pos, pow2};
use vstd::prelude::*;

verus! {

/// Ring parameters of the transform: the dimension `n == 2^log_n`, the table of
/// twiddle factors used by the stages, their inverses, and the inverse of `n`.
pub struct NttParams {
    pub n: usize,
    pub log_n: usize,
    pub roots: Vec<u64>,
    pub inv_roots: Vec<u64>,
    pub n_inv: u64,
}

impl NttParams {
    /// The table sizes match `n`, every entry is a field element, each twiddle
    /// factor is inverted by its partner and `n_inv` inverts `n`.
    pub open spec fn wf(&self) -> bool {
        &&& self.log_n < 32
        &&& self.n as nat == pow2(self.log_n as nat)
        &&& self.roots@.len() == self.n
        &&& self.inv_roots@.len() == self.n
        &&& canonical(self.roots@)
        &&& canonical(self.inv_roots@)
        &&& self.n_inv < ORDER
        &&& fmul(self.n as int, self.n_inv as int) == 1
        &&& forall|j: int|
            0 <= j < self.n ==> fmul(
                #[trigger] self.roots@[j] as int,
                self.inv_roots@[j] as int,
            ) == 1
    }
}

/// One forward stage with `m` groups of `2 * t` entries: in group `g` the pair
/// `(u, v)` at offsets `(j, j + t)` becomes `(u + v * w, u - v * w)`, where `w`
/// is the twiddle factor `roots[m + g]`.
pub open spec fn fw_stage(a: Seq<u64>, roots: Seq<u64>, m: int, t: int) -> Seq<u64> {
    Seq::new(
        a.len(),
        |j: int|
            if j % (2 * t) < t {
                fadd(a[j] as int, fmul(a[j + t] as int, roots[m + j / (2 * t)] as int)) as u64
            } else {
                fsub(a[j - t] as int, fmul(a[j] as int, roots[m + j / (2 * t)] as int)) as u64
            },
    )
}

/// One backward stage with `m` groups of `2 * t` entries: in group `g` the pair
/// `(u, v)` becomes `(u + v, (u - v) * w')`, where `w'` is `inv_roots[m + g]`.
pub open spec fn bw_stage(a: Seq<u64>, inv_roots: Seq<u64>, m: int, t: int) -> Seq<u64> {
    Seq::new(
        a.len(),
        |j: int|
            if j % (2 * t) < t {
                fadd(a[j] as int, a[j + t] as int) as u64
            } else {
                fmul(fsub(a[j - t] as int, a[j] as int), inv_roots[m + j / (2 * t)] as int) as u64
            },
    )
}

/// Number of pairs per group in stage `k` of a transform of size `2^log_n`.
pub open spec fn half_width(log_n: nat, k: nat) -> int {
    pow2((log_n - 1 - k) as nat) as int
}

/// Forward stages `lo, lo + 1, ..., hi - 1` applied in that order; stage `k`
/// has `2^k` groups.
pub open spec fn fw_range(a: Seq<u64>, roots: Seq<u64>, log_n: nat, lo: nat, hi: nat) -> Seq<u64>
    decreases hi - lo,
{
    if lo >= hi {
        a
    } else {
        fw_range(
            fw_stage(a, roots, pow2(lo) as int, half_width(log_n, lo)),
            roots,
            log_n,
            lo + 1,
            hi,
        )
    }
}

/// Backward stages `hi - 1, hi - 2, ..., lo` applied in that order.
pub open spec fn bw_range(a: Seq<u64>, inv_roots: Seq<u64>, log_n: nat, lo: nat, hi: nat) -> Seq<
    u64,
>
    decreases hi - lo,
{
    if lo >= hi {
        a
    } else {
        bw_stage(
            bw_range(a, inv_roots, log_n, lo + 1, hi),
            inv_roots,
            pow2(lo) as int,
            half_width(log_n, lo),
        )
    }
}

/// The forward transform of `a`.
pub open spec fn ntt_fw(params: &NttParams, a: Seq<u64>) -> Seq<u64> {
    fw_range(a, params.roots@, params.log_n as nat, 0, params.log_n as nat)
}

/// The backward transform of `a`, normalised by `n^-1`.
pub open spec fn ntt_bw(params: &NttParams, a: Seq<u64>) -> Seq<u64> {
    vscale(params.n_inv, bw_range(a, params.inv_roots@, params.log_n as nat, 0, params.log_n as nat))
}

/// Stage `k` of a transform of size `2^log_n` has `2^k` groups of
/// `2 * half_width(log_n, k)` entries, which tile the whole input.
pub proof fn lemma_stage_shape(log_n: nat, k: nat)
    requires
        k < log_n,
    ensures
        pow2(log_n) == 2 * pow2(k) * half_width(log_n, k),
        half_width(log_n, k) > 0,
        pow2(k) > 0,
{
    let h = pow2((log_n - 1 - k) as nat);
    lemma_pow2_adds(k, (log_n - k) as nat);
    lemma_pow2_adds(1, (log_n - 1 - k) as nat);
    lemma_pow2_pos(k);
    lemma_pow2_pos((log_n - 1 - k) as nat);
    assert(pow2(1) == 2) by {
        vstd::arithmetic::power2::lemma2_to64();
    }
    assert(pow2(k) * (2 * h) == 2 * pow2(k) * h) by (nonlinear_arith);
}

/// Position `g * 2t + r` of a stage lies in group `g` at offset `r`.
proof fn lemma_pos(g: int, t: int, r: int)
    requires
        t > 0,
        g >= 0,
        0 <= r < 2 * t,
    ensures
        (g * (2 * t) + r) / (2 * t) == g,
        (g * (2 * t) + r) % (2 * t) == r,
{
    lemma_fundamental_div_mod_converse(g * (2 * t) + r, 2 * t, g, r);
}

/// One forward butterfly stage with `m` groups.
pub fn ntt_fw_update(params: &NttParams, input: &Vec<u64>, m: usize) -> (r: Vec<u64>)
    requires
        params.wf(),
        input@.len() == params.n,
        canonical(input@),
        0 < m,
        2 * m <= params.n,
        params.n as int % (2 * m as int) == 0,
    ensures
        r@ == fw_stage(input@, params.roots@, m as int, params.n as int / (2 * m as int)),
        canonical(r@),
{
    let n = params.n;
    assert(n < 0x1_0000_0000) by {
        vstd::arithmetic::power2::lemma_pow2_strictly_increases(params.log_n as nat, 32);
        vstd::arithmetic::power2::lemma2_to64();
    }
    let t: usize = n / (2 * m);
    let ghost tt = t as int;
    let ghost stage = fw_stage(input@, params.roots@, m as int, tt);
    proof {
        vstd::arithmetic::div_mod::lemma_fundamental_div_mod(n as int, 2 * m as int);
        assert(n as int == (2 * m as int) * tt);
        lemma_pow2_pos(params.log_n as nat);
        assert(tt > 0) by (nonlinear_arith)
            requires
                n as int == (2 * m as int) * tt,
                n > 0,
                m > 0,
        ;
        assert(2 * tt <= n) by (nonlinear_arith)
            requires
                n as int == (2 * m as int) * tt,
                tt > 0,
                m > 0,
        ;
    }
    let mut out: Vec<u64> = Vec::with_capacity(n);
    let mut i: usize = 0;
    while i < m
        invariant
            params.wf(),
            n == params.n,
            input@.len() == n,
            canonical(input@),
            n as int == 2 * (m as int) * tt,
            2 * tt <= n,
            2 * m <= n,
            tt == t,
            tt > 0,
            i <= m,
            stage == fw_stage(input@, params.roots@, m as int, tt),
            out@ == stage.take(i as int * (2 * tt)),
        decreases m - i,
    {
        assert((i as int + 1) * (2 * tt) <= n) by (nonlinear_arith)
            requires
                i < m,
                n as int == 2 * (m as int) * tt,
                tt > 0,
        ;
        let s = params.roots[m + i];
        assert(s < ORDER) by {
            assert(params.roots@[(m + i) as int] < ORDER);
        }
        assert(i as int * (2 * tt) <= (i as int + 1) * (2 * tt)) by (nonlinear_arith)
            requires
                tt > 0,
        ;
        let two_t: usize = 2 * t;
        assert(i as int * two_t as int <= n as int);
        let j1: usize = i * two_t;
        assert(j1 as int + 2 * tt == (i as int + 1) * (2 * tt)) by (nonlinear_arith)
            requires
                j1 as int == i as int * (2 * tt),
        ;
        let mut j: usize = 0;
        while j < t
            invariant
                params.wf(),
                n == params.n,
                input@.len() == n,
                canonical(input@),
                tt == t,
                tt > 0,
                i < m,
                j1 as int + 2 * tt <= n,
                j1 as int == i as int * (2 * tt),
                s == params.roots@[m + i],
                s < ORDER,
                j <= t,
                stage == fw_stage(input@, params.roots@, m as int, tt),
                out@ == stage.take(j1 + j),
            decreases t - j,
        {
            proof {
                lemma_pos(i as int, tt, j as int);
                assert(input@[(j1 + j + t) as int] < ORDER);
                assert(input@[(j1 + j) as int] < ORDER);
            }
            let v = field_mul(input[j1 + j + t], s);
            out.push(field_add(input[j1 + j], v));
            j += 1;
            assert(out@ =~= stage.take(j1 + j));
        }
        j = 0;
        while j < t
            invariant
                params.wf(),
                n == params.n,
                input@.len() == n,
                canonical(input@),
                tt == t,
                tt > 0,
                i < m,
                j1 as int + 2 * tt <= n,
                j1 as int == i as int * (2 * tt),
                s == params.roots@[m + i],
                s < ORDER,
                j <= t,
                stage == fw_stage(input@, params.roots@, m as int, tt),
                out@ == stage.take(j1 + t + j),
            decreases t - j,
        {
            proof {
                lemma_pos(i as int, tt, tt + j as int);
                assert(input@[(j1 + j + t) as int] < ORDER);
                assert(input@[(j1 + j) as int] < ORDER);
            }
            let v = field_mul(input[j1 + j + t], s);
            out.push(field_sub(input[j1 + j], v));
            j += 1;
            assert(out@ =~= stage.take(j1 + t + j));
        }
        i += 1;
    }
    assert(m as int * (2 * tt) == n) by (nonlinear_arith)
        requires
            n as int == 2 * (m as int) * tt,
    ;
    assert(out@ =~= stage);
    proof {
        assert forall|j: int| 0 <= j < out@.len() implies (#[trigger] out@[j]) < ORDER by {
            assert(out@[j] == stage[j]);
        }
    }
    out
}

/// One backward butterfly stage with `m` groups.
pub fn ntt_bw_update(params: &NttParams, input: &Vec<u64>, m: usize) -> (r: Vec<u64>)
    requires
        params.wf(),
        input@.len() == params.n,
        canonical(input@),
        0 < m,
        2 * m <= params.n,
        params.n as int % (2 * m as int) == 0,
    ensures
        r@ == bw_stage(input@, params.inv_roots@, m as int, params.n as int / (2 * m as int)),
        canonical(r@),
{
    let n = params.n;
    assert(n < 0x1_0000_0000) by {
        vstd::arithmetic::power2::lemma_pow2_strictly_increases(params.log_n as nat, 32);
        vstd::arithmetic::power2::lemma2_to64();
    }
    let t: usize = n / (2 * m);
    let ghost tt = t as int;
    let ghost stage = bw_stage(input@, params.inv_roots@, m as int, tt);
    proof {
        vstd::arithmetic::div_mod::lemma_fundamental_div_mod(n as int, 2 * m as int);
        assert(n as int == (2 * m as int) * tt);
        lemma_pow2_pos(params.log_n as nat);
        assert(tt > 0) by (nonlinear_arith)
            requires
                n as int == (2 * m as int) * tt,
                n > 0,
                m > 0,
        ;
        assert(2 * tt <= n) by (nonlinear_arith)
            requires
                n as int == (2 * m as int) * tt,
                tt > 0,
                m > 0,
        ;
    }
    let mut out: Vec<u64> = Vec::with_capacity(n);
    let mut i: usize = 0;
    while i < m
        invariant
            params.wf(),
            n == params.n,
            input@.len() == n,
            canonical(input@),
            n as int == 2 * (m as int) * tt,
            2 * tt <= n,
            2 * m <= n,
            tt == t,
            tt > 0,
            i <= m,
            stage == bw_stage(input@, params.inv_roots@, m as int, tt),
            out@ == stage.take(i as int * (2 * tt)),
        decreases m - i,
    {
        assert((i as int + 1) * (2 * tt) <= n) by (nonlinear_arith)
            requires
                i < m,
                n as int == 2 * (m as int) * tt,
                tt > 0,
        ;
        let s = params.inv_roots[m + i];
        assert(s < ORDER) by {
            assert(params.inv_roots@[(m + i) as int] < ORDER);
        }
        assert(i as int * (2 * tt) <= (i as int + 1) * (2 * tt)) by (nonlinear_arith)
            requires
                tt > 0,
        ;
        let two_t: usize = 2 * t;
        assert(i as int * two_t as int <= n as int);
        let j1: usize = i * two_t;
        assert(j1 as int + 2 * tt == (i as int + 1) * (2 * tt)) by (nonlinear_arith)
            requires
                j1 as int == i as int * (2 * tt),
        ;
        let mut j: usize = 0;
        while j < t
            invariant
                params.wf(),
                n == params.n,
                input@.len() == n,
                canonical(input@),
                tt == t,
                tt > 0,
                i < m,
                j1 as int + 2 * tt <= n,
                j1 as int == i as int * (2 * tt),
                s == params.inv_roots@[m + i],
                s < ORDER,
                j <= t,
                stage == bw_stage(input@, params.inv_roots@, m as int, tt),
                out@ == stage.take(j1 + j),
            decreases t - j,
        {
            proof {
                lemma_pos(i as int, tt, j as int);
                assert(input@[(j1 + j + t) as int] < ORDER);
                assert(input@[(j1 + j) as int] < ORDER);
            }
            out.push(field_add(input[j1 + j], input[j1 + j + t]));
            j += 1;
            assert(out@ =~= stage.take(j1 + j));
        }
        j = 0;
        while j < t
            invariant
                params.wf(),
                n == params.n,
                input@.len() == n,
                canonical(input@),
                tt == t,
                tt > 0,
                i < m,
                j1 as int + 2 * tt <= n,
                j1 as int == i as int * (2 * tt),
                s == params.inv_roots@[m + i],
                s < ORDER,
                j <= t,
                stage == bw_stage(input@, params.inv_roots@, m as int, tt),
                out@ == stage.take(j1 + t + j),
            decreases t - j,
        {
            proof {
                lemma_pos(i as int, tt, tt + j as int);
                assert(input@[(j1 + j + t) as int] < ORDER);
                assert(input@[(j1 + j) as int] < ORDER);
            }
            let w = field_sub(input[j1 + j], input[j1 + j + t]);
            out.push(field_mul(w, s));
            j += 1;
            assert(out@ =~= stage.take(j1 + t + j));
        }
        i += 1;
    }
    assert(m as int * (2 * tt) == n) by (nonlinear_arith)
        requires
            n as int == 2 * (m as int) * tt,
    ;
    assert(out@ =~= stage);
    proof {
        assert forall|j: int| 0 <= j < out@.len() implies (#[trigger] out@[j]) < ORDER by {
            assert(out@[j] == stage[j]);
        }
    }
    out
}


/// Applies the forward stages `0, 1, ..., log_n - 1`; stage `k` has `2^k` groups.
pub fn ntt_forward(params: &NttParams, input: &Vec<u64>) -> (r: Vec<u64>)
    requires
        params.wf(),
        input@.len() == params.n,
        canonical(input@),
    ensures
        r@ == ntt_fw(params, input@),
        r@.len() == params.n,
        canonical(r@),
{
    let mut current = input.clone();
    let mut k: usize = 0;
    let mut m: usize = 1;
    proof {
        vstd::arithmetic::power2::lemma2_to64();
    }
    while k < params.log_n
        invariant
            params.wf(),
            k <= params.log_n,
            k < params.log_n ==> m as nat == pow2(k as nat),
            current@.len() == params.n,
            canonical(current@),
            current@ == fw_range(input@, params.roots@, params.log_n as nat, 0, k as nat),
        decreases params.log_n - k,
    {
        proof {
            lemma_stage_shape(params.log_n as nat, k as nat);
            let h = half_width(params.log_n as nat, k as nat);
            assert(params.n as int == (2 * m as int) * h && params.n as int == h * (2 * m as int)) by (nonlinear_arith)
                requires
                    params.n as int == 2 * m as int * h,
            ;
            vstd::arithmetic::div_mod::lemma_fundamental_div_mod_converse(params.n as int, 2 * m as int, h, 0);
            assert(2 * m <= params.n) by (nonlinear_arith)
                requires
                    params.n as int == (2 * m as int) * h,
                    h > 0,
            ;
            lemma_fw_range_snoc(input@, params.roots@, params.log_n as nat, 0, k as nat);
        }
        current = ntt_fw_update(params, &current, m);
        proof {
            vstd::arithmetic::power2::lemma_pow2_unfold((k + 1) as nat);
        }
        k += 1;
        if k < params.log_n {
            m = 2 * m;
        }
    }
    current
}

/// Applies the backward stages `log_n - 1, ..., 1, 0`, then multiplies every
/// entry by `n^-1`.
pub fn ntt_backward(params: &NttParams, input: &Vec<u64>) -> (r: Vec<u64>)
    requires
        params.wf(),
        input@.len() == params.n,
        canonical(input@),
    ensures
        r@ == ntt_bw(params, input@),
        r@.len() == params.n,
        canonical(r@),
{
    let mut current = input.clone();
    let mut k: usize = params.log_n;
    let mut m: usize = params.n / 2;
    proof {
        if k > 0 {
            vstd::arithmetic::power2::lemma_pow2_unfold(k as nat);
        }
    }
    while k > 0
        invariant
            params.wf(),
            k <= params.log_n,
            current@.len() == params.n,
            canonical(current@),
            current@ == bw_range(input@, params.inv_roots@, params.log_n as nat, k as nat, params.log_n as nat),
            k > 0 ==> m as nat == pow2((k - 1) as nat),
        decreases k,
    {
        k -= 1;
        proof {
            lemma_stage_shape(params.log_n as nat, k as nat);
            vstd::arithmetic::power2::lemma_pow2_strictly_increases(k as nat, 32);
            vstd::arithmetic::power2::lemma2_to64();
        }
        proof {
            let h = half_width(params.log_n as nat, k as nat);
            assert(params.n as int == (2 * m as int) * h && params.n as int == h * (2 * m as int)) by (nonlinear_arith)
                requires
                    params.n as int == 2 * m as int * h,
            ;
            vstd::arithmetic::div_mod::lemma_fundamental_div_mod_converse(params.n as int, 2 * m as int, h, 0);
            assert(2 * m <= params.n) by (nonlinear_arith)
                requires
                    params.n as int == (2 * m as int) * h,
                    h > 0,
            ;
        }
        current = ntt_bw_update(params, &current, m);
        proof {
            if k > 0 {
                vstd::arithmetic::power2::lemma_pow2_unfold(k as nat);
            }
        }
        m = m / 2;
    }
    scalar_mul(params.n_inv, &current)
}

/// Applying one more forward stage at the top of a range.
pub proof fn lemma_fw_range_snoc(a: Seq<u64>, roots: Seq<u64>, log_n: nat, lo: nat, hi: nat)
    requires
        lo <= hi,
    ensures
        fw_range(a, roots, log_n, lo, hi + 1) == fw_stage(
            fw_range(a, roots, log_n, lo, hi),
            roots,
            pow2(hi) as int,
            half_width(log_n, hi),
        ),
    decreases hi - lo,
{
    if lo == hi {
        let s = fw_stage(a, roots, pow2(lo) as int, half_width(log_n, lo));
        assert(fw_range(s, roots, log_n, lo + 1, hi + 1) == s);
    } else {
        lemma_fw_range_snoc(
            fw_stage(a, roots, pow2(lo) as int, half_width(log_n, lo)),
            roots,
            log_n,
            lo + 1,
            hi,
        );
    }
}

/// The low `bits` bits of `j` read in reverse order, accumulated onto `acc`.
pub open spec fn rev_bits(j: nat, bits: nat, acc: nat) -> nat
    decreases bits,
{
    if bits == 0 {
        acc
    } else {
        rev_bits(j / 2, (bits - 1) as nat, 2 * acc + j % 2)
    }
}

/// The `bits`-bit reversal of `j`.
pub open spec fn bit_reverse(j: nat, bits: nat) -> nat {
    rev_bits(j, bits, 0)
}

proof fn lemma_rev_bits_bound(j: nat, bits: nat, acc: nat)
    ensures
        rev_bits(j, bits, acc) < (acc + 1) * pow2(bits),
    decreases bits,
{
    vstd::arithmetic::power2::lemma_pow2_pos(bits);
    if bits == 0 {
        vstd::arithmetic::power2::lemma2_to64();
    } else {
        lemma_rev_bits_bound(j / 2, (bits - 1) as nat, 2 * acc + j % 2);
        vstd::arithmetic::power2::lemma_pow2_unfold(bits);
        let q = pow2((bits - 1) as nat);
        assert((2 * acc + j % 2 + 1) * q <= (acc + 1) * (2 * q)) by (nonlinear_arith)
            requires
                j % 2 <= 1,
                q > 0,
        ;
    }
}

/// The `bits`-bit reversal of `j`.
pub fn reverse_bits(j: usize, bits: usize) -> (r: usize)
    requires
        bits < 32,
    ensures
        r as nat == bit_reverse(j as nat, bits as nat),
        r < pow2(bits as nat),
{
    let mut x: usize = j;
    let mut acc: usize = 0;
    let mut i: usize = 0;
    proof {
        lemma_rev_bits_bound(j as nat, bits as nat, 0);
        vstd::arithmetic::power2::lemma_pow2_strictly_increases(bits as nat, 32);
        vstd::arithmetic::power2::lemma2_to64();
    }
    while i < bits
        invariant
            i <= bits < 32,
            rev_bits(j as nat, bits as nat, 0) == rev_bits(x as nat, (bits - i) as nat, acc as nat),
            acc < pow2(i as nat),
            pow2(bits as nat) <= 0x1_0000_0000,
        decreases bits - i,
    {
        proof {
            vstd::arithmetic::power2::lemma_pow2_unfold((i + 1) as nat);
            if i + 1 < bits {
                vstd::arithmetic::power2::lemma_pow2_strictly_increases((i + 1) as nat, bits as nat);
            }
        }
        acc = 2 * acc + x % 2;
        x = x / 2;
        i += 1;
    }
    proof {
        lemma_rev_bits_bound(j as nat, bits as nat, 0);
    }
    acc
}

impl NttParams {
    /// Builds the tables for dimension `2^log_n` from `root` and its inverse:
    /// entry `j` of the twiddle table is `root^bit_reverse(j)`, and likewise for
    /// the inverse table. For a negacyclic transform `root` is a primitive
    /// `2^(log_n + 1)`-th root of unity.
    pub fn new(log_n: usize, root: u64, inv_root: u64) -> (r: NttParams)
        requires
            log_n < 32,
            root < ORDER,
            inv_root < ORDER,
            fmul(root as int, inv_root as int) == 1,
        ensures
            r.wf(),
            r.log_n == log_n,
            forall|j: int|
                0 <= j < r.n ==> (#[trigger] r.roots@[j]) as int == fpow(
                    root as int,
                    bit_reverse(j as nat, log_n as nat),
                ),
            forall|j: int|
                0 <= j < r.n ==> (#[trigger] r.inv_roots@[j]) as int == fpow(
                    inv_root as int,
                    bit_reverse(j as nat, log_n as nat),
                ),
    {
        let half: u64 = 0x7FFF_FFFF_8000_0001;
        assert(half < ORDER);
        assert(fmul(2, half as int) == 1) by {
            assert(2 * half as int == p() * 1 + 1);
            vstd::arithmetic::div_mod::lemma_mod_multiples_vanish(1, 1, p());
        }
        let mut n: usize = 1;
        let mut n_inv: u64 = 1;
        let mut k: usize = 0;
        proof {
            vstd::arithmetic::power2::lemma2_to64();
            vstd::arithmetic::power2::lemma_pow2_strictly_increases(log_n as nat, 32);
        }
        while k < log_n
            invariant
                k <= log_n < 32,
                n as nat == pow2(k as nat),
                n_inv < ORDER,
                fmul(n as int, n_inv as int) == 1,
                half < ORDER,
                fmul(2, half as int) == 1,
                pow2(32) == 0x1_0000_0000,
            decreases log_n - k,
        {
            proof {
                vstd::arithmetic::power2::lemma_pow2_unfold((k + 1) as nat);
                vstd::arithmetic::power2::lemma_pow2_strictly_increases((k + 1) as nat, 32);
                lemma_inverse_mul(n as int, n_inv as int, 2, half as int);
                vstd::arithmetic::div_mod::lemma_mul_mod_noop_general(2 * n as int, n_inv as int * half as int, p());
                vstd::arithmetic::div_mod::lemma_mul_mod_noop_general(2, n as int, p());
                vstd::arithmetic::div_mod::lemma_small_mod((2 * n) as nat, ORDER as nat);
            }
            n_inv = field_mul(n_inv, half);
            n = 2 * n;
            k += 1;
        }
        let mut roots: Vec<u64> = Vec::with_capacity(n);
        let mut inv_roots: Vec<u64> = Vec::with_capacity(n);
        let mut j: usize = 0;
        while j < n
            invariant
                j <= n,
                n as nat == pow2(log_n as nat),
                log_n < 32,
                root < ORDER,
                inv_root < ORDER,
                fmul(root as int, inv_root as int) == 1,
                roots@.len() == j,
                inv_roots@.len() == j,
                forall|i: int|
                    0 <= i < j ==> (#[trigger] roots@[i]) as int == fpow(
                        root as int,
                        bit_reverse(i as nat, log_n as nat),
                    ),
                forall|i: int|
                    0 <= i < j ==> (#[trigger] inv_roots@[i]) as int == fpow(
                        inv_root as int,
                        bit_reverse(i as nat, log_n as nat),
                    ),
            decreases n - j,
        {
            let e = reverse_bits(j, log_n);
            roots.push(field_pow(root, e as u64));
            inv_roots.push(field_pow(inv_root, e as u64));
            j += 1;
        }
        let r = NttParams { n, log_n, roots, inv_roots, n_inv };
        proof {
            assert forall|j: int| 0 <= j < r.n implies fmul(
                #[trigger] r.roots@[j] as int,
                r.inv_roots@[j] as int,
            ) == 1 && r.roots@[j] < ORDER && r.inv_roots@[j] < ORDER by {
                lemma_fpow_inverse(root as int, inv_root as int, bit_reverse(j as nat, log_n as nat));
                lemma_fpow_inverse(inv_root as int, root as int, bit_reverse(j as nat, log_n as nat));
                assert(fmul(inv_root as int, root as int) == 1) by {
                    assert(inv_root as int * root as int == root as int * inv_root as int) by (nonlinear_arith);
                }
            }
        }
        r
    }
}

/// Stage shape: `m` groups of `2t` entries, with twiddle factors `m .. 2m` in
/// a table of `tab_len` entries.
pub open spec fn stage_ok(len: nat, m: int, t: int, tab_len: nat) -> bool {
    m > 0 && t > 0 && len == 2 * m * t && 2 * m <= tab_len
}

/// The twiddle factors are field elements and each is inverted by its partner.
pub open spec fn inverse_tables(roots: Seq<u64>, inv_roots: Seq<u64>) -> bool {
    &&& roots.len() == inv_roots.len()
    &&& canonical(roots)
    &&& canonical(inv_roots)
    &&& forall|j: int| 0 <= j < roots.len() ==> fmul(#[trigger] roots[j] as int, inv_roots[j] as int) == 1
}

proof fn lemma_index(j: int, m: int, t: int)
    requires
        m > 0,
        t > 0,
        0 <= j < 2 * m * t,
    ensures
        0 <= j / (2 * t) < m,
        0 <= j % (2 * t) < 2 * t,
        j % (2 * t) < t ==> j + t < 2 * m * t && (j + t) / (2 * t) == j / (2 * t) && (j + t) % (2 * t) == j
            % (2 * t) + t,
        j % (2 * t) >= t ==> j - t >= 0 && (j - t) / (2 * t) == j / (2 * t) && (j - t) % (2 * t) == j
            % (2 * t) - t,
{
    let d = 2 * t;
    let g = j / d;
    let r = j % d;
    vstd::arithmetic::div_mod::lemma_fundamental_div_mod(j, d);
    vstd::arithmetic::div_mod::lemma_mod_pos_bound(j, d);
    assert(g >= 0) by {
        vstd::arithmetic::div_mod::lemma_div_pos_is_pos(j, d);
    }
    assert(g < m) by (nonlinear_arith)
        requires
            j == d * g + r,
            0 <= r,
            j < 2 * m * t,
            d == 2 * t,
            t > 0,
    ;
    if r < t {
        lemma_pos(g, t, r + t);
        assert(j + t == g * d + (r + t)) by (nonlinear_arith)
            requires
                j == d * g + r,
        ;
        assert(g * d + d <= m * d) by (nonlinear_arith)
            requires
                g < m,
                d > 0,
        ;
        assert(m * d == 2 * m * t) by (nonlinear_arith)
            requires
                d == 2 * t,
        ;
    } else {
        lemma_pos(g, t, r - t);
        assert(j - t == g * d + (r - t)) by (nonlinear_arith)
            requires
                j == d * g + r,
        ;
        assert(g * d >= 0) by (nonlinear_arith)
            requires
                g >= 0,
                d > 0,
        ;
    }
}

/// A backward stage undoes its forward stage up to a factor 2, and the other
/// way round.
pub proof fn lemma_stage_inverse(a: Seq<u64>, roots: Seq<u64>, inv_roots: Seq<u64>, m: int, t: int)
    requires
        stage_ok(a.len(), m, t, roots.len()),
        canonical(a),
        inverse_tables(roots, inv_roots),
    ensures
        bw_stage(fw_stage(a, roots, m, t), inv_roots, m, t) == vscale(2, a),
        fw_stage(bw_stage(a, inv_roots, m, t), roots, m, t) == vscale(2, a),
{
    let f = fw_stage(a, roots, m, t);
    let b = bw_stage(a, inv_roots, m, t);
    assert forall|j: int| 0 <= j < a.len() implies #[trigger] bw_stage(f, inv_roots, m, t)[j] == vscale(
        2,
        a,
    )[j] && fw_stage(b, roots, m, t)[j] == vscale(2, a)[j] by {
        lemma_index(j, m, t);
        let g = j / (2 * t);
        let s = roots[m + g] as int;
        let si = inv_roots[m + g] as int;
        assert(fmul(s, si) == 1);
        if j % (2 * t) < t {
            let u = a[j] as int;
            let v = a[j + t] as int;
            let w = fmul(v, s);
            lemma_butterfly_pair(u, w);
            lemma_butterfly_pair(u, v);
            lemma_fmul_assoc(fsub(u, v), si, s);
            lemma_fmul_comm(si, s);
            lemma_fmul_one(fsub(u, v));
        } else {
            let u = a[j - t] as int;
            let v = a[j] as int;
            let w = fmul(v, s);
            lemma_butterfly_pair(u, w);
            lemma_fmul_assoc(2, w, si);
            lemma_fmul_assoc(v, s, si);
            lemma_fmul_one(v);
            lemma_butterfly_pair(u, v);
            lemma_fmul_assoc(fsub(u, v), si, s);
            lemma_fmul_comm(si, s);
            lemma_fmul_one(fsub(u, v));
        }
    }
    assert(bw_stage(f, inv_roots, m, t) =~= vscale(2, a));
    assert forall|j: int| 0 <= j < a.len() implies #[trigger] fw_stage(b, roots, m, t)[j] == vscale(2, a)[j] by {
        assert(bw_stage(f, inv_roots, m, t)[j] == vscale(2, a)[j]);
    }
    assert(fw_stage(b, roots, m, t) =~= vscale(2, a));
}

/// Stages commute with multiplication by a scalar.
pub proof fn lemma_stage_scale(a: Seq<u64>, c: u64, roots: Seq<u64>, inv_roots: Seq<u64>, m: int, t: int)
    requires
        stage_ok(a.len(), m, t, roots.len()),
        canonical(a),
        c < ORDER,
        inverse_tables(roots, inv_roots),
    ensures
        fw_stage(vscale(c, a), roots, m, t) == vscale(c, fw_stage(a, roots, m, t)),
        bw_stage(vscale(c, a), inv_roots, m, t) == vscale(c, bw_stage(a, inv_roots, m, t)),
{
    let ca = vscale(c, a);
    assert forall|j: int| 0 <= j < a.len() implies #[trigger] fw_stage(ca, roots, m, t)[j] == vscale(
        c,
        fw_stage(a, roots, m, t),
    )[j] && bw_stage(ca, inv_roots, m, t)[j] == vscale(c, bw_stage(a, inv_roots, m, t))[j] by {
        lemma_index(j, m, t);
        let g = j / (2 * t);
        let s = roots[m + g] as int;
        let si = inv_roots[m + g] as int;
        let c = c as int;
        if j % (2 * t) < t {
            let u = a[j] as int;
            let v = a[j + t] as int;
            lemma_fmul_assoc(c, v, s);
            lemma_fmul_distrib_add(c, u, fmul(v, s));
            lemma_fmul_distrib_add(c, u, v);
        } else {
            let u = a[j - t] as int;
            let v = a[j] as int;
            lemma_fmul_assoc(c, v, s);
            lemma_fmul_distrib_sub(c, u, fmul(v, s));
            lemma_fmul_distrib_sub(c, u, v);
            lemma_fmul_assoc(c, fsub(u, v), si);
        }
    }
    assert(fw_stage(ca, roots, m, t) =~= vscale(c, fw_stage(a, roots, m, t)));
    assert forall|j: int| 0 <= j < a.len() implies #[trigger] bw_stage(ca, inv_roots, m, t)[j] == vscale(
        c,
        bw_stage(a, inv_roots, m, t),
    )[j] by {
        assert(fw_stage(ca, roots, m, t)[j] == vscale(c, fw_stage(a, roots, m, t))[j]);
    }
    assert(bw_stage(ca, inv_roots, m, t) =~= vscale(c, bw_stage(a, inv_roots, m, t)));
}

/// A forward stage is additive.
pub proof fn lemma_stage_add(a: Seq<u64>, b: Seq<u64>, roots: Seq<u64>, m: int, t: int)
    requires
        stage_ok(a.len(), m, t, roots.len()),
        b.len() == a.len(),
        canonical(a),
        canonical(b),
        canonical(roots),
    ensures
        fw_stage(vadd(a, b), roots, m, t) == vadd(fw_stage(a, roots, m, t), fw_stage(b, roots, m, t)),
{
    let ab = vadd(a, b);
    assert forall|j: int| 0 <= j < a.len() implies #[trigger] fw_stage(ab, roots, m, t)[j] == vadd(
        fw_stage(a, roots, m, t),
        fw_stage(b, roots, m, t),
    )[j] by {
        lemma_index(j, m, t);
        let g = j / (2 * t);
        let s = roots[m + g] as int;
        let (u1, v1, u2, v2) = if j % (2 * t) < t {
            (a[j] as int, a[j + t] as int, b[j] as int, b[j + t] as int)
        } else {
            (a[j - t] as int, a[j] as int, b[j - t] as int, b[j] as int)
        };
        lemma_fmul_comm(fadd(v1, v2), s);
        lemma_fmul_distrib_add(s, v1, v2);
        lemma_fmul_comm(s, v1);
        lemma_fmul_comm(s, v2);
        lemma_fadd_swap(u1, u2, fmul(v1, s), fmul(v2, s));
    }
    assert(fw_stage(ab, roots, m, t) =~= vadd(fw_stage(a, roots, m, t), fw_stage(b, roots, m, t)));
}

/// The stages of a transform of size `2^log_n` have the shape the lemmas ask for.
proof fn lemma_stage_ok(log_n: nat, k: nat, len: nat, tab_len: nat)
    requires
        k < log_n,
        len == pow2(log_n),
        tab_len == len,
    ensures
        stage_ok(len, pow2(k) as int, half_width(log_n, k), tab_len),
{
    lemma_stage_shape(log_n, k);
    let h = half_width(log_n, k);
    let m = pow2(k) as int;
    assert(2 * m <= 2 * m * h) by (nonlinear_arith)
        requires
            h >= 1,
            m > 0,
    ;
}

proof fn lemma_stage_canonical(a: Seq<u64>, roots: Seq<u64>, inv_roots: Seq<u64>, m: int, t: int)
    ensures
        canonical(fw_stage(a, roots, m, t)),
        canonical(bw_stage(a, inv_roots, m, t)),
        fw_stage(a, roots, m, t).len() == a.len(),
        bw_stage(a, inv_roots, m, t).len() == a.len(),
{
    assert forall|j: int| 0 <= j < a.len() implies (#[trigger] fw_stage(a, roots, m, t)[j]) < ORDER by {}
    assert forall|j: int| 0 <= j < a.len() implies (#[trigger] bw_stage(a, inv_roots, m, t)[j]) < ORDER by {}
}

proof fn lemma_vscale_vscale(c: u64, d: u64, x: Seq<u64>)
    requires
        c < ORDER,
        d < ORDER,
        canonical(x),
    ensures
        vscale(c, vscale(d, x)) == vscale(fmul(c as int, d as int) as u64, x),
        canonical(vscale(c, x)),
{
    assert forall|j: int| 0 <= j < x.len() implies #[trigger] vscale(c, vscale(d, x))[j] == vscale(
        fmul(c as int, d as int) as u64,
        x,
    )[j] by {
        lemma_fmul_assoc(c as int, d as int, x[j] as int);
    }
    assert(vscale(c, vscale(d, x)) =~= vscale(fmul(c as int, d as int) as u64, x));
    assert forall|j: int| 0 <= j < x.len() implies (#[trigger] vscale(c, x)[j]) < ORDER by {}
}

proof fn lemma_vscale_one(x: Seq<u64>)
    requires
        canonical(x),
    ensures
        vscale(1, x) == x,
{
    assert forall|j: int| 0 <= j < x.len() implies #[trigger] vscale(1, x)[j] == x[j] by {
        lemma_fmul_one(x[j] as int);
    }
    assert(vscale(1, x) =~= x);
}

/// The ranges of stages keep the length and give field elements.
pub proof fn lemma_range_shape(a: Seq<u64>, roots: Seq<u64>, inv_roots: Seq<u64>, log_n: nat, lo: nat, hi: nat)
    ensures
        fw_range(a, roots, log_n, lo, hi).len() == a.len(),
        bw_range(a, inv_roots, log_n, lo, hi).len() == a.len(),
        canonical(a) ==> canonical(fw_range(a, roots, log_n, lo, hi)),
        canonical(a) ==> canonical(bw_range(a, inv_roots, log_n, lo, hi)),
    decreases hi - lo,
{
    if lo < hi {
        let m = pow2(lo) as int;
        let t = half_width(log_n, lo);
        lemma_stage_canonical(a, roots, inv_roots, m, t);
        lemma_range_shape(fw_stage(a, roots, m, t), roots, inv_roots, log_n, lo + 1, hi);
        lemma_range_shape(a, roots, inv_roots, log_n, lo + 1, hi);
        lemma_stage_canonical(bw_range(a, inv_roots, log_n, lo + 1, hi), roots, inv_roots, m, t);
    }
}

proof fn lemma_range_scale(
    a: Seq<u64>,
    c: u64,
    roots: Seq<u64>,
    inv_roots: Seq<u64>,
    log_n: nat,
    lo: nat,
    hi: nat,
)
    requires
        hi <= log_n,
        a.len() == pow2(log_n),
        roots.len() == a.len(),
        canonical(a),
        c < ORDER,
        inverse_tables(roots, inv_roots),
    ensures
        fw_range(vscale(c, a), roots, log_n, lo, hi) == vscale(c, fw_range(a, roots, log_n, lo, hi)),
        bw_range(vscale(c, a), inv_roots, log_n, lo, hi) == vscale(c, bw_range(a, inv_roots, log_n, lo, hi)),
    decreases hi - lo,
{
    if lo < hi {
        let m = pow2(lo) as int;
        let t = half_width(log_n, lo);
        lemma_stage_ok(log_n, lo, a.len(), roots.len());
        lemma_stage_scale(a, c, roots, inv_roots, m, t);
        lemma_stage_canonical(a, roots, inv_roots, m, t);
        lemma_range_scale(fw_stage(a, roots, m, t), c, roots, inv_roots, log_n, lo + 1, hi);
        lemma_range_scale(a, c, roots, inv_roots, log_n, lo + 1, hi);
        let z = bw_range(a, inv_roots, log_n, lo + 1, hi);
        lemma_range_shape(a, roots, inv_roots, log_n, lo + 1, hi);
        lemma_stage_scale(z, c, roots, inv_roots, m, t);
    }
}

proof fn lemma_range_add(a: Seq<u64>, b: Seq<u64>, roots: Seq<u64>, log_n: nat, lo: nat, hi: nat)
    requires
        hi <= log_n,
        a.len() == pow2(log_n),
        b.len() == a.len(),
        roots.len() == a.len(),
        canonical(a),
        canonical(b),
        canonical(roots),
    ensures
        fw_range(vadd(a, b), roots, log_n, lo, hi) == vadd(
            fw_range(a, roots, log_n, lo, hi),
            fw_range(b, roots, log_n, lo, hi),
        ),
    decreases hi - lo,
{
    if lo < hi {
        let m = pow2(lo) as int;
        let t = half_width(log_n, lo);
        lemma_stage_ok(log_n, lo, a.len(), roots.len());
        lemma_stage_add(a, b, roots, m, t);
        lemma_stage_canonical(a, roots, roots, m, t);
        lemma_stage_canonical(b, roots, roots, m, t);
        lemma_range_add(fw_stage(a, roots, m, t), fw_stage(b, roots, m, t), roots, log_n, lo + 1, hi);
    }
}

/// `pow2(e)` as a field element.
pub open spec fn two_to(e: nat) -> u64 {
    (pow2(e) as int % p()) as u64
}

proof fn lemma_two_to_step(e: nat)
    ensures
        two_to(e) < ORDER,
        fmul(two_to(e) as int, 2) == two_to(e + 1),
        fmul(2, two_to(e) as int) == two_to(e + 1),
{
    vstd::arithmetic::power2::lemma_pow2_unfold(e + 1);
    vstd::arithmetic::div_mod::lemma_mul_mod_noop_left(pow2(e) as int, 2, p());
    lemma_fmul_comm(two_to(e) as int, 2);
}

proof fn lemma_range_inverse(x: Seq<u64>, roots: Seq<u64>, inv_roots: Seq<u64>, log_n: nat, lo: nat, hi: nat)
    requires
        lo <= hi <= log_n,
        x.len() == pow2(log_n),
        roots.len() == x.len(),
        canonical(x),
        inverse_tables(roots, inv_roots),
    ensures
        bw_range(fw_range(x, roots, log_n, lo, hi), inv_roots, log_n, lo, hi) == vscale(
            two_to((hi - lo) as nat),
            x,
        ),
        fw_range(bw_range(x, inv_roots, log_n, lo, hi), roots, log_n, lo, hi) == vscale(
            two_to((hi - lo) as nat),
            x,
        ),
    decreases hi - lo,
{
    if lo == hi {
        vstd::arithmetic::power2::lemma2_to64();
        vstd::arithmetic::div_mod::lemma_small_mod(1, p() as nat);
        lemma_vscale_one(x);
    } else {
        let m = pow2(lo) as int;
        let t = half_width(log_n, lo);
        let e = (hi - lo - 1) as nat;
        lemma_stage_ok(log_n, lo, x.len(), roots.len());
        lemma_two_to_step(e);
        // backward after forward
        let fx = fw_stage(x, roots, m, t);
        lemma_stage_canonical(x, roots, inv_roots, m, t);
        lemma_range_inverse(fx, roots, inv_roots, log_n, lo + 1, hi);
        lemma_stage_inverse(x, roots, inv_roots, m, t);
        lemma_stage_scale(fx, two_to(e), roots, inv_roots, m, t);
        lemma_vscale_vscale(two_to(e), 2, x);
        // forward after backward
        let z = bw_range(x, inv_roots, log_n, lo + 1, hi);
        lemma_range_shape(x, roots, inv_roots, log_n, lo + 1, hi);
        lemma_stage_inverse(z, roots, inv_roots, m, t);
        lemma_range_scale(z, 2, roots, inv_roots, log_n, lo + 1, hi);
        lemma_range_inverse(x, roots, inv_roots, log_n, lo + 1, hi);
        lemma_vscale_vscale(2, two_to(e), x);
        assert(fw_range(bw_stage(z, inv_roots, m, t), roots, log_n, lo, hi) == fw_range(
            fw_stage(bw_stage(z, inv_roots, m, t), roots, m, t),
            roots,
            log_n,
            lo + 1,
            hi,
        ));
    }
}

/// Round trip: on ring elements of the parameters' dimension the backward
/// transform inverts the forward transform, and the forward transform
/// inverts the backward transform.
pub proof fn lemma_ntt_round_trip(params: &NttParams, x: Seq<u64>)
    requires
        params.wf(),
        x.len() == params.n,
        canonical(x),
    ensures
        ntt_bw(params, ntt_fw(params, x)) == x,
        ntt_fw(params, ntt_bw(params, x)) == x,
{
    let l = params.log_n as nat;
    let roots = params.roots@;
    let inv = params.inv_roots@;
    lemma_range_inverse(x, roots, inv, l, 0, l);
    vstd::arithmetic::power2::lemma_pow2_strictly_increases(l, 32);
    vstd::arithmetic::power2::lemma2_to64();
    vstd::arithmetic::div_mod::lemma_small_mod(params.n as nat, p() as nat);
    assert(two_to(l) == params.n);
    lemma_fmul_comm(params.n_inv as int, params.n as int);
    lemma_vscale_vscale(params.n_inv, params.n as u64, x);
    lemma_vscale_one(x);
    let z = bw_range(x, inv, l, 0, l);
    lemma_range_shape(x, roots, inv, l, 0, l);
    lemma_range_scale(z, params.n_inv, roots, inv, l, 0, l);
}

/// Linearity: the forward transform of a sum is the sum of the forward transforms.
pub proof fn lemma_ntt_linear(params: &NttParams, a: Seq<u64>, b: Seq<u64>)
    requires
        params.wf(),
        a.len() == params.n,
        b.len() == params.n,
        canonical(a),
        canonical(b),
    ensures
        vadd(ntt_fw(params, a), ntt_fw(params, b)) == ntt_fw(params, vadd(a, b)),
{
    lemma_range_add(a, b, params.roots@, params.log_n as nat, 0, params.log_n as nat);
}

} // verus!
