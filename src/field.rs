//! Goldilocks field elements, held as canonical `u64` values below [`ORDER`].

use vstd::prelude::*;

verus! {

/// The Goldilocks prime `2^64 - 2^32 + 1`.
pub const ORDER: u64 = 0xFFFF_FFFF_0000_0001;

/// Width of a bit decomposition of a field element.
pub const NUM_BITS: usize = 64;

pub open spec fn p() -> int {
    ORDER as int
}

/// Field addition on canonical representatives.
pub open spec fn fadd(a: int, b: int) -> int {
    (a + b) % p()
}

/// Field subtraction on canonical representatives.
pub open spec fn fsub(a: int, b: int) -> int {
    (a - b) % p()
}

/// Field multiplication on canonical representatives.
pub open spec fn fmul(a: int, b: int) -> int {
    (a * b) % p()
}

/// Field negation on canonical representatives.
pub open spec fn fneg(a: int) -> int {
    (-a) % p()
}

/// Every entry of `s` is a canonical field element.
pub open spec fn canonical(s: Seq<u64>) -> bool {
    forall|i: int| 0 <= i < s.len() ==> (#[trigger] s[i]) < ORDER
}

/// `a + b` in the field.
pub fn field_add(a: u64, b: u64) -> (r: u64)
    requires
        a < ORDER,
        b < ORDER,
    ensures
        r < ORDER,
        r as int == fadd(a as int, b as int),
{
    let s: u128 = a as u128 + b as u128;
    if s >= ORDER as u128 {
        proof {
            vstd::arithmetic::div_mod::lemma_mod_sub_multiples_vanish(s as int, p());
            vstd::arithmetic::div_mod::lemma_small_mod((s - ORDER) as nat, ORDER as nat);
        }
        (s - ORDER as u128) as u64
    } else {
        proof {
            vstd::arithmetic::div_mod::lemma_small_mod(s as nat, ORDER as nat);
        }
        s as u64
    }
}

/// `a - b` in the field.
pub fn field_sub(a: u64, b: u64) -> (r: u64)
    requires
        a < ORDER,
        b < ORDER,
    ensures
        r < ORDER,
        r as int == fsub(a as int, b as int),
{
    if a >= b {
        proof {
            vstd::arithmetic::div_mod::lemma_small_mod((a - b) as nat, ORDER as nat);
        }
        a - b
    } else {
        let r: u64 = ORDER - b + a;
        proof {
            vstd::arithmetic::div_mod::lemma_mod_add_multiples_vanish(a - b, p());
            vstd::arithmetic::div_mod::lemma_small_mod(r as nat, ORDER as nat);
        }
        r
    }
}

/// `a * b` in the field.
pub fn field_mul(a: u64, b: u64) -> (r: u64)
    requires
        a < ORDER,
        b < ORDER,
    ensures
        r < ORDER,
        r as int == fmul(a as int, b as int),
{
    proof {
        assert((a as int) * (b as int) <= 0xFFFF_FFFF_FFFF_FFFF * 0xFFFF_FFFF_FFFF_FFFF) by (nonlinear_arith)
            requires
                a <= 0xFFFF_FFFF_FFFF_FFFFu64,
                b <= 0xFFFF_FFFF_FFFF_FFFFu64,
        ;
    }
    let prod: u128 = a as u128 * b as u128;
    (prod % (ORDER as u128)) as u64
}

/// `-a` in the field.
pub fn field_neg(a: u64) -> (r: u64)
    requires
        a < ORDER,
    ensures
        r < ORDER,
        r as int == fneg(a as int),
{
    field_sub(0, a)
}

/// `b^e` in the field.
pub open spec fn fpow(b: int, e: nat) -> int
    decreases e,
{
    if e == 0 {
        1
    } else {
        fmul(b, fpow(b, (e - 1) as nat))
    }
}

/// Products of inverse pairs are inverse pairs.
pub proof fn lemma_inverse_mul(x: int, y: int, a: int, b: int)
    requires
        fmul(x, y) == 1,
        fmul(a, b) == 1,
    ensures
        fmul(fmul(a, x), fmul(b, y)) == 1,
{
    let m = p();
    vstd::arithmetic::div_mod::lemma_mul_mod_noop_general(a * x, b * y, m);
    vstd::arithmetic::div_mod::lemma_mul_mod_noop_general(a * b, x * y, m);
    assert((a * x) * (b * y) == (a * b) * (x * y)) by (nonlinear_arith);
}

/// Powers of inverse elements are inverse elements.
pub proof fn lemma_fpow_inverse(a: int, b: int, e: nat)
    requires
        fmul(a, b) == 1,
    ensures
        fmul(fpow(a, e), fpow(b, e)) == 1,
        0 <= fpow(a, e) < p(),
    decreases e,
{
    if e > 0 {
        lemma_fpow_inverse(a, b, (e - 1) as nat);
        lemma_inverse_mul(fpow(a, (e - 1) as nat), fpow(b, (e - 1) as nat), a, b);
    }
}

/// `b^e` in the field, by repeated multiplication.
pub fn field_pow(b: u64, e: u64) -> (r: u64)
    requires
        b < ORDER,
    ensures
        r as int == fpow(b as int, e as nat),
        r < ORDER,
{
    let mut r: u64 = 1;
    let mut i: u64 = 0;
    while i < e
        invariant
            b < ORDER,
            i <= e,
            r < ORDER,
            r as int == fpow(b as int, i as nat),
        decreases e - i,
    {
        r = field_mul(b, r);
        i += 1;
    }
    r
}

pub proof fn lemma_fmul_comm(a: int, b: int)
    ensures
        fmul(a, b) == fmul(b, a),
{
    assert(a * b == b * a) by (nonlinear_arith);
}

pub proof fn lemma_fmul_assoc(a: int, b: int, c: int)
    ensures
        fmul(fmul(a, b), c) == fmul(a, fmul(b, c)),
{
    let m = p();
    vstd::arithmetic::div_mod::lemma_mul_mod_noop_left(a * b, c, m);
    vstd::arithmetic::div_mod::lemma_mul_mod_noop_right(a, b * c, m);
    assert(a * b * c == a * (b * c)) by (nonlinear_arith);
}

pub proof fn lemma_fmul_distrib_add(c: int, x: int, y: int)
    ensures
        fmul(c, fadd(x, y)) == fadd(fmul(c, x), fmul(c, y)),
{
    let m = p();
    vstd::arithmetic::div_mod::lemma_mul_mod_noop_right(c, x + y, m);
    vstd::arithmetic::div_mod::lemma_add_mod_noop(c * x, c * y, m);
    assert(c * (x + y) == c * x + c * y) by (nonlinear_arith);
}

pub proof fn lemma_fmul_distrib_sub(c: int, x: int, y: int)
    ensures
        fmul(c, fsub(x, y)) == fsub(fmul(c, x), fmul(c, y)),
{
    let m = p();
    vstd::arithmetic::div_mod::lemma_mul_mod_noop_right(c, x - y, m);
    vstd::arithmetic::div_mod::lemma_sub_mod_noop(c * x, c * y, m);
    assert(c * (x - y) == c * x - c * y) by (nonlinear_arith);
}

pub proof fn lemma_fmul_one(x: int)
    requires
        0 <= x < p(),
    ensures
        fmul(x, 1) == x,
        fmul(1, x) == x,
{
    vstd::arithmetic::div_mod::lemma_small_mod(x as nat, p() as nat);
}

/// `(u + w) + (u - w) == 2u` and `(u + w) - (u - w) == 2w`.
pub proof fn lemma_butterfly_pair(u: int, w: int)
    ensures
        fadd(fadd(u, w), fsub(u, w)) == fmul(2, u),
        fsub(fadd(u, w), fsub(u, w)) == fmul(2, w),
{
    let m = p();
    vstd::arithmetic::div_mod::lemma_add_mod_noop(u + w, u - w, m);
    vstd::arithmetic::div_mod::lemma_sub_mod_noop(u + w, u - w, m);
}

/// `(a + b) + (c + d) == (a + c) + (b + d)` and `(a + b) - (c + d) == (a - c) + (b - d)`.
pub proof fn lemma_fadd_swap(a: int, b: int, c: int, d: int)
    ensures
        fadd(fadd(a, b), fadd(c, d)) == fadd(fadd(a, c), fadd(b, d)),
        fsub(fadd(a, b), fadd(c, d)) == fadd(fsub(a, c), fsub(b, d)),
{
    let m = p();
    vstd::arithmetic::div_mod::lemma_add_mod_noop(a + b, c + d, m);
    vstd::arithmetic::div_mod::lemma_add_mod_noop(a + c, b + d, m);
    vstd::arithmetic::div_mod::lemma_sub_mod_noop(a + b, c + d, m);
    vstd::arithmetic::div_mod::lemma_add_mod_noop(a - c, b - d, m);
}

} // verus!
