//! Signed balanced digit decomposition of field elements from their bits,
//! with the bit adders and the two's-complement negation it rests on.
//! Functions named `eval_*` also append the constraints that a prover must
//! satisfy to a list of constraint values: a constraint holds when its value
//! is zero.

use crate::field::{
    canonical, fadd, field_add, field_mul, field_neg, field_sub, fmul, fneg, fsub, p, NUM_BITS,
    ORDER,
};
use vstd::arithmetic::power2::pow2;
use vstd::prelude::*;

verus! {

pub open spec fn is_bit(x: u64) -> bool {
    x == 0 || x == 1
}

pub open spec fn all_bits(s: Seq<u64>) -> bool {
    forall|i: int| 0 <= i < s.len() ==> is_bit(#[trigger] s[i])
}

/// Little-endian weighted sum `sum_i s[i] * 2^i`, over the integers.
pub open spec fn bits_val(s: Seq<u64>) -> int
    decreases s.len(),
{
    if s.len() == 0 {
        0
    } else {
        s[0] as int + 2 * bits_val(s.drop_first())
    }
}

/// The booleanity constraint `b * b - b` of each entry.
pub open spec fn bool_constraints(s: Seq<u64>) -> Seq<u64> {
    Seq::new(s.len(), |i: int| fsub(fmul(s[i] as int, s[i] as int), s[i] as int) as u64)
}

/// `sign * (-x - x) + x`: `-x` when `sign` is 1 and `x` when it is 0.
pub open spec fn plus_or_minus(sign: int, x: int) -> int {
    fadd(fmul(sign, fsub(fneg(x), x)), x)
}

/// `flag * (a - b) + b`: `a` when `flag` is 1 and `b` when it is 0.
pub open spec fn select(flag: int, a: int, b: int) -> int {
    fadd(fmul(flag, fsub(a, b)), b)
}

pub open spec fn select_seq(flag: u64, a: Seq<u64>, b: Seq<u64>) -> Seq<u64> {
    Seq::new(a.len(), |i: int| select(flag as int, a[i] as int, b[i] as int) as u64)
}

/// Number of digits of base `2^logb` that cover `NUM_BITS` bits.
pub open spec fn num_limbs(logb: nat) -> nat {
    ((NUM_BITS + logb - 1) / logb as int) as nat
}

pub open spec fn chunk_start(c: int, logb: nat) -> int {
    c * logb
}

pub open spec fn chunk_end(c: int, logb: nat, len: nat) -> int {
    if (c + 1) * logb < len {
        (c + 1) * logb
    } else {
        len as int
    }
}

/// Window `c` of the bits: `logb` bits from position `c * logb`, fewer in the last window.
pub open spec fn chunk(bits: Seq<u64>, c: int, logb: nat) -> Seq<u64> {
    bits.subrange(chunk_start(c, logb), chunk_end(c, logb, bits.len()))
}

/// Digit `c` before its sign is restored: the window's value plus the carry of
/// the window below, less `2^logb` when the window's top bit is set.
pub open spec fn balanced_digit(bits: Seq<u64>, c: int, logb: nat) -> int {
    let w = chunk(bits, c, logb);
    let carry: int = if c == 0 {
        0
    } else {
        chunk(bits, c - 1, logb).last() as int
    };
    fsub(fadd(bits_val(w) % p(), carry), fmul(w.last() as int, pow2(logb) as int))
}

/// The signed digits of the centered bits, each passed through `plus_or_minus(sign, .)`.
pub open spec fn digits(bits: Seq<u64>, sign: u64, logb: nat) -> Seq<u64> {
    Seq::new(
        num_limbs(logb),
        |c: int| plus_or_minus(sign as int, balanced_digit(bits, c, logb)) as u64,
    )
}

/// Sum of the bits `[start, end)` of `bits`, weighted from `2^0`, in the field.
pub fn le_sum_range(bits: &[u64], start: usize, end: usize) -> (r: u64)
    requires
        start <= end <= bits@.len(),
        canonical(bits@),
    ensures
        r < ORDER,
        r as int == bits_val(bits@.subrange(start as int, end as int)) % p(),
{
    let mut sum: u64 = 0;
    let mut i: usize = end;
    assert(bits_val(bits@.subrange(end as int, end as int)) == 0);
    while i > start
        invariant
            start <= i <= end <= bits@.len(),
            canonical(bits@),
            sum < ORDER,
            sum as int == bits_val(bits@.subrange(i as int, end as int)) % p(),
        decreases i - start,
    {
        i -= 1;
        let ghost rest = bits@.subrange(i as int + 1, end as int);
        let ghost cur = bits@.subrange(i as int, end as int);
        assert(cur.drop_first() =~= rest);
        assert(cur[0] == bits@[i as int]);
        proof {
            vstd::arithmetic::div_mod::lemma_mul_mod_noop_right(2, bits_val(rest), p());
            vstd::arithmetic::div_mod::lemma_add_mod_noop(2 * bits_val(rest), bits@[i as int] as int, p());
            vstd::arithmetic::div_mod::lemma_small_mod(bits@[i as int] as nat, ORDER as nat);
            vstd::arithmetic::div_mod::lemma_mod_twice(2 * bits_val(rest), p());
        }
        let twice = field_mul(2, sum);
        sum = field_add(twice, bits[i]);
    }
    sum
}

/// Sum of `bits` weighted from `2^0`, in the field.
pub fn le_sum_native(bits: &[u64]) -> (r: u64)
    requires
        canonical(bits@),
    ensures
        r < ORDER,
        r as int == bits_val(bits@) % p(),
{
    assert(bits@.subrange(0, bits@.len() as int) =~= bits@);
    le_sum_range(bits, 0, bits.len())
}

/// The weighted sum of `bits`, appending the booleanity constraint of each bit.
pub fn eval_le_sum(constraints: &mut Vec<u64>, bits: &[u64]) -> (r: u64)
    requires
        canonical(bits@),
    ensures
        r < ORDER,
        r as int == bits_val(bits@) % p(),
        final(constraints)@ == old(constraints)@ + bool_constraints(bits@),
{
    let ghost start = constraints@;
    let mut i: usize = 0;
    while i < bits.len()
        invariant
            i <= bits@.len(),
            canonical(bits@),
            constraints@ == start + bool_constraints(bits@).take(i as int),
        decreases bits@.len() - i,
    {
        let sq = field_mul(bits[i], bits[i]);
        constraints.push(field_sub(sq, bits[i]));
        i += 1;
        assert(constraints@ =~= start + bool_constraints(bits@).take(i as int));
    }
    assert(bool_constraints(bits@).take(i as int) =~= bool_constraints(bits@));
    le_sum_native(bits)
}

pub proof fn lemma_small_field_values()
    ensures
        fmul(0, 0) == 0,
        fmul(0, 1) == 0,
        fmul(1, 0) == 0,
        fmul(1, 1) == 1,
        fmul(2, 0) == 0,
        fmul(2, 1) == 2,
        fmul(0, 2) == 0,
        fmul(1, 2) == 2,
        fmul(2, 2) == 4,
        fadd(0, 0) == 0,
        fadd(0, 1) == 1,
        fadd(1, 0) == 1,
        fadd(1, 1) == 2,
        fadd(2, 0) == 2,
        fadd(2, 1) == 3,
        fadd(0, 2) == 2,
        fadd(1, 2) == 3,
        fsub(0, 0) == 0,
        fsub(1, 0) == 1,
        fsub(2, 0) == 2,
        fsub(2, 2) == 0,
        fsub(1, 2) == p() - 1,
        fsub(3, 2) == 1,
        fsub(3, 4) == p() - 1,
        fsub(0, 2) == p() - 2,
        fsub(0, 1) == p() - 1,
        fsub(2, 4) == p() - 2,
        fsub(1, 1) == 0,
{
    let m = p();
    vstd::arithmetic::div_mod::lemma_small_mod(0, m as nat);
    vstd::arithmetic::div_mod::lemma_small_mod(1, m as nat);
    vstd::arithmetic::div_mod::lemma_small_mod(2, m as nat);
    vstd::arithmetic::div_mod::lemma_small_mod(3, m as nat);
    vstd::arithmetic::div_mod::lemma_small_mod(4, m as nat);
    vstd::arithmetic::div_mod::lemma_fundamental_div_mod_converse(-1, m, -1, m - 1);
    vstd::arithmetic::div_mod::lemma_fundamental_div_mod_converse(-2, m, -1, m - 2);
}

proof fn lemma_half_adder_bits(a: int, b: int)
    requires
        a == 0 || a == 1,
        b == 0 || b == 1,
    ensures
        fmul(a, b) == (a + b) / 2,
        fsub(fadd(a, b), fmul(2, fmul(a, b))) == (a + b) % 2,
{
    lemma_small_field_values();
}

proof fn lemma_full_adder_bits(a: int, b: int, c: int)
    requires
        a == 0 || a == 1,
        b == 0 || b == 1,
        c == 0 || c == 1,
    ensures
        ({
            let ab = fmul(a, b);
            let x = fsub(fadd(a, b), fmul(2, ab));
            &&& fsub(fadd(x, c), fmul(fmul(2, x), c)) == (a + b + c) % 2
            &&& fadd(fmul(x, c), ab) == (a + b + c) / 2
        }),
{
    lemma_small_field_values();
    lemma_half_adder_bits(a, b);
}

/// Half adder over field elements: `(a + b - 2ab, ab)`, the sum bit and the
/// carry when `a` and `b` are bits.
pub fn eval_half_adder(a: u64, b: u64) -> (r: (u64, u64))
    requires
        a < ORDER,
        b < ORDER,
    ensures
        r.0 < ORDER,
        r.1 < ORDER,
        r.1 as int == fmul(a as int, b as int),
        r.0 as int == fsub(fadd(a as int, b as int), fmul(2, fmul(a as int, b as int))),
        is_bit(a) && is_bit(b) ==> r.0 as int == (a + b) % 2 && r.1 as int == (a + b) / 2,
{
    proof {
        if is_bit(a) && is_bit(b) {
            lemma_half_adder_bits(a as int, b as int);
        }
    }
    let c_out = field_mul(a, b);
    let s = field_add(a, b);
    let twice = field_mul(2, c_out);
    (field_sub(s, twice), c_out)
}

/// Full adder over field elements; the sum bit and the carry of `a + b + c_in`
/// when all three are bits.
pub fn eval_full_adder(a: u64, b: u64, c_in: u64) -> (r: (u64, u64))
    requires
        a < ORDER,
        b < ORDER,
        c_in < ORDER,
    ensures
        r.0 < ORDER,
        r.1 < ORDER,
        ({
            let ab = fmul(a as int, b as int);
            let x = fsub(fadd(a as int, b as int), fmul(2, ab));
            &&& r.0 as int == fsub(fadd(x, c_in as int), fmul(fmul(2, x), c_in as int))
            &&& r.1 as int == fadd(fmul(x, c_in as int), ab)
        }),
        is_bit(a) && is_bit(b) && is_bit(c_in) ==> r.0 as int == (a + b + c_in) % 2 && r.1 as int
            == (a + b + c_in) / 2,
{
    proof {
        if is_bit(a) && is_bit(b) && is_bit(c_in) {
            lemma_full_adder_bits(a as int, b as int, c_in as int);
        }
    }
    let a_and_b = field_mul(a, b);
    let s = field_add(a, b);
    let twice_ab = field_mul(2, a_and_b);
    let a_xor_b = field_sub(s, twice_ab);
    let t = field_add(a_xor_b, c_in);
    let twice_x = field_mul(2, a_xor_b);
    let u = field_mul(twice_x, c_in);
    let sum = field_sub(t, u);
    let xc = field_mul(a_xor_b, c_in);
    let c_out = field_add(xc, a_and_b);
    (sum, c_out)
}

pub proof fn lemma_bits_val_push(s: Seq<u64>, x: u64)
    ensures
        bits_val(s.push(x)) == bits_val(s) + x * pow2(s.len()),
    decreases s.len(),
{
    if s.len() == 0 {
        assert(s.push(x).drop_first() =~= Seq::<u64>::empty());
        assert(bits_val(Seq::<u64>::empty()) == 0);
        assert(s.push(x)[0] == x);
        assert(bits_val(s.push(x)) == x);
        vstd::arithmetic::power2::lemma2_to64();
    } else {
        assert(s.push(x).drop_first() =~= s.drop_first().push(x));
        lemma_bits_val_push(s.drop_first(), x);
        vstd::arithmetic::power2::lemma_pow2_unfold(s.len());
        assert(2 * (x * pow2((s.len() - 1) as nat)) == x * (2 * pow2((s.len() - 1) as nat)))
            by (nonlinear_arith);
    }
}

pub proof fn lemma_bits_val_bound(s: Seq<u64>)
    requires
        all_bits(s),
    ensures
        0 <= bits_val(s) < pow2(s.len()),
    decreases s.len(),
{
    vstd::arithmetic::power2::lemma2_to64();
    if s.len() > 0 {
        assert(is_bit(s[0]));
        lemma_bits_val_bound(s.drop_first());
        vstd::arithmetic::power2::lemma_pow2_unfold(s.len());
    }
}

/// Two's complement of a bit vector: each bit flipped, then 1 added through a
/// chain of half adders. On bits the result is `2^len - x` modulo `2^len`.
pub fn eval_two_s_comp(bits: &[u64]) -> (r: Vec<u64>)
    requires
        canonical(bits@),
    ensures
        r@.len() == bits@.len(),
        canonical(r@),
        all_bits(bits@) ==> all_bits(r@) && bits_val(r@) == (pow2(bits@.len()) - bits_val(bits@))
            % (pow2(bits@.len()) as int),
{
    let mut carry: u64 = 1;
    let mut out: Vec<u64> = Vec::new();
    let mut i: usize = 0;
    proof {
        vstd::arithmetic::power2::lemma2_to64();
        assert(bits@.take(0) =~= Seq::<u64>::empty());
        assert(out@ =~= Seq::<u64>::empty());
    }
    while i < bits.len()
        invariant
            i <= bits@.len(),
            canonical(bits@),
            out@.len() == i,
            canonical(out@),
            carry < ORDER,
            all_bits(bits@) ==> is_bit(carry) && all_bits(out@) && bits_val(out@) + carry * pow2(
                i as nat,
            ) == pow2(i as nat) - bits_val(bits@.take(i as int)),
        decreases bits@.len() - i,
    {
        let flipped = field_sub(1, bits[i]);
        let (sum, c_out) = eval_half_adder(flipped, carry);
        proof {
            if all_bits(bits@) {
                assert(is_bit(bits@[i as int]));
                vstd::arithmetic::div_mod::lemma_small_mod((1 - bits@[i as int]) as nat, ORDER as nat);
                lemma_bits_val_push(out@, sum);
                assert(bits@.take(i as int + 1) =~= bits@.take(i as int).push(bits@[i as int]));
                lemma_bits_val_push(bits@.take(i as int), bits@[i as int]);
                vstd::arithmetic::power2::lemma_pow2_unfold(i as nat + 1);
                assert((sum + 2 * c_out) * pow2(i as nat) == (flipped + carry) * pow2(i as nat));
                assert(c_out * pow2(i as nat + 1) == 2 * c_out * pow2(i as nat)) by (nonlinear_arith)
                    requires pow2(i as nat + 1) == 2 * pow2(i as nat);
                assert((sum + 2 * c_out) * pow2(i as nat) == sum * pow2(i as nat) + 2 * c_out * pow2(i as nat)) by (nonlinear_arith);
                assert((flipped + carry) * pow2(i as nat) == flipped * pow2(i as nat) + carry * pow2(i as nat)) by (nonlinear_arith);
                assert(flipped * pow2(i as nat) == pow2(i as nat) - bits@[i as int] * pow2(i as nat)) by (nonlinear_arith)
                    requires flipped == 1 - bits@[i as int];
            }
        }
        out.push(sum);
        carry = c_out;
        i += 1;
    }
    proof {
        assert(bits@.take(i as int) =~= bits@);
        if all_bits(bits@) {
            let n = pow2(bits@.len()) as int;
            lemma_bits_val_bound(out@);
            lemma_bits_val_bound(bits@);
            if carry == 1 {
                assert(bits_val(bits@) == 0);
                vstd::arithmetic::div_mod::lemma_mod_self_0(n);
            } else {
                vstd::arithmetic::div_mod::lemma_small_mod((n - bits_val(bits@)) as nat, n as nat);
            }
        }
    }
    out
}

/// The bits of the field order, least significant first.
pub fn modulus_bits() -> (r: Vec<u64>)
    ensures
        r@.len() == NUM_BITS,
        all_bits(r@),
        canonical(r@),
        bits_val(r@) == ORDER,
{
    let mut out: Vec<u64> = Vec::new();
    let mut i: usize = 0;
    proof {
        vstd::arithmetic::power2::lemma2_to64();
    }
    while i < NUM_BITS
        invariant
            i <= NUM_BITS,
            out@.len() == i,
            all_bits(out@),
            canonical(out@),
            bits_val(out@) == if i == 0 {
                0
            } else if i <= 32 {
                1
            } else {
                1 + pow2(i as nat) - pow2(32)
            },
        decreases NUM_BITS - i,
    {
        let b: u64 = if i == 0 || i >= 32 { 1 } else { 0 };
        proof {
            lemma_bits_val_push(out@, b);
            vstd::arithmetic::power2::lemma_pow2_unfold(i as nat + 1);
            vstd::arithmetic::power2::lemma2_to64();
        }
        out.push(b);
        i += 1;
    }
    proof {
        vstd::arithmetic::power2::lemma2_to64_rest();
    }
    out
}

/// Bits of `p - x` for a field element `x` given by its bits (of `p` when `x`
/// is zero): the two's complement of `x` plus the bits of the order, through
/// a chain of full adders, modulo `2^64`.
pub fn eval_neg_ele(x_bits: &[u64]) -> (r: Vec<u64>)
    requires
        x_bits@.len() == NUM_BITS,
        canonical(x_bits@),
    ensures
        r@.len() == NUM_BITS,
        canonical(r@),
        all_bits(x_bits@) ==> all_bits(r@) && bits_val(r@) == ((pow2(64) - bits_val(x_bits@)) % (pow2(64) as int)
            + ORDER) % (pow2(64) as int),
        all_bits(x_bits@) && bits_val(x_bits@) < ORDER ==> bits_val(r@) % p() == fneg(bits_val(x_bits@)),
{
    let neg_int = eval_two_s_comp(x_bits);
    let modulus = modulus_bits();
    let mut c_in: u64 = 0;
    let mut out: Vec<u64> = Vec::new();
    let mut i: usize = 0;
    proof {
        vstd::arithmetic::power2::lemma2_to64();
        assert(neg_int@.take(0) =~= Seq::<u64>::empty());
        assert(modulus@.take(0) =~= Seq::<u64>::empty());
    }
    while i < NUM_BITS
        invariant
            i <= NUM_BITS,
            neg_int@.len() == NUM_BITS,
            modulus@.len() == NUM_BITS,
            canonical(neg_int@),
            canonical(modulus@),
            all_bits(modulus@),
            out@.len() == i,
            canonical(out@),
            c_in < ORDER,
            all_bits(x_bits@) ==> all_bits(neg_int@),
            all_bits(x_bits@) ==> is_bit(c_in) && all_bits(out@) && bits_val(out@) + c_in * pow2(
                i as nat,
            ) == bits_val(neg_int@.take(i as int)) + bits_val(modulus@.take(i as int)),
        decreases NUM_BITS - i,
    {
        let (sum, c_out) = eval_full_adder(neg_int[i], modulus[i], c_in);
        proof {
            if all_bits(x_bits@) {
                let a = neg_int@[i as int];
                let b = modulus@[i as int];
                assert(is_bit(a));
                assert(is_bit(b));
                let e = pow2(i as nat);
                lemma_bits_val_push(out@, sum);
                assert(neg_int@.take(i as int + 1) =~= neg_int@.take(i as int).push(a));
                assert(modulus@.take(i as int + 1) =~= modulus@.take(i as int).push(b));
                lemma_bits_val_push(neg_int@.take(i as int), a);
                lemma_bits_val_push(modulus@.take(i as int), b);
                vstd::arithmetic::power2::lemma_pow2_unfold(i as nat + 1);
                assert(sum + 2 * c_out == a + b + c_in);
                assert(c_out * pow2(i as nat + 1) == 2 * c_out * e) by (nonlinear_arith)
                    requires pow2(i as nat + 1) == 2 * e;
                assert((sum + 2 * c_out) * e == sum * e + 2 * c_out * e) by (nonlinear_arith);
                assert((a + b + c_in) * e == a * e + b * e + c_in * e) by (nonlinear_arith);
            }
        }
        out.push(sum);
        c_in = c_out;
        i += 1;
    }
    proof {
        assert(neg_int@.take(64) =~= neg_int@);
        assert(modulus@.take(64) =~= modulus@);
        if all_bits(x_bits@) {
            let n = pow2(64) as int;
            let x = bits_val(x_bits@);
            let t = bits_val(neg_int@);
            lemma_bits_val_bound(out@);
            lemma_bits_val_bound(x_bits@);
            lemma_bits_val_bound(neg_int@);
            assert(bits_val(out@) + c_in * n == t + ORDER);
            if c_in == 1 {
                vstd::arithmetic::div_mod::lemma_fundamental_div_mod_converse(t + ORDER, n, 1, bits_val(out@));
            } else {
                vstd::arithmetic::div_mod::lemma_small_mod((t + ORDER) as nat, n as nat);
            }
            if x < ORDER {
                if x == 0 {
                    vstd::arithmetic::div_mod::lemma_mod_self_0(n);
                    vstd::arithmetic::div_mod::lemma_small_mod(ORDER as nat, n as nat);
                    vstd::arithmetic::div_mod::lemma_mod_self_0(p());
                } else {
                    vstd::arithmetic::div_mod::lemma_small_mod((n - x) as nat, n as nat);
                    vstd::arithmetic::div_mod::lemma_fundamental_div_mod_converse(t + ORDER, n, 1, ORDER - x);
                    vstd::arithmetic::div_mod::lemma_small_mod((ORDER - x) as nat, ORDER as nat);
                    vstd::arithmetic::div_mod::lemma_mod_add_multiples_vanish(-x, p());
                }
            }
        }
    }
    out
}

/// The `len` low bits of `v`, least significant first.
pub open spec fn to_bits(v: int, len: nat) -> Seq<u64>
    decreases len,
{
    if len == 0 {
        Seq::empty()
    } else {
        seq![(v % 2) as u64] + to_bits(v / 2, (len - 1) as nat)
    }
}

/// A bit vector is the binary representation of its value.
pub proof fn lemma_to_bits(s: Seq<u64>)
    requires
        all_bits(s),
    ensures
        s == to_bits(bits_val(s), s.len()),
    decreases s.len(),
{
    if s.len() > 0 {
        assert(is_bit(s[0]));
        let rest = s.drop_first();
        lemma_to_bits(rest);
        let v = bits_val(s);
        vstd::arithmetic::div_mod::lemma_fundamental_div_mod_converse(v, 2, bits_val(rest), s[0] as int);
        assert(s =~= seq![s[0]] + rest);
    }
}

/// Bits of the negation that [`eval_neg_ele`] computes from the bits `s`.
pub open spec fn neg_bits_of(s: Seq<u64>) -> Seq<u64> {
    to_bits(
        ((pow2(64) - bits_val(s)) % (pow2(64) as int) + ORDER) % (pow2(64) as int),
        NUM_BITS as nat,
    )
}

/// On a sign bit, `plus_or_minus` keeps or negates.
pub proof fn lemma_plus_or_minus_bit(sign: int, x: int)
    requires
        sign == 0 || sign == 1,
        0 <= x < p(),
    ensures
        plus_or_minus(sign, x) == if sign == 1 {
            fneg(x)
        } else {
            x
        },
{
    let m = p();
    vstd::arithmetic::div_mod::lemma_small_mod(x as nat, m as nat);
    vstd::arithmetic::div_mod::lemma_small_mod(0, m as nat);
    if sign == 1 {
        let d = fsub(fneg(x), x);
        vstd::arithmetic::div_mod::lemma_small_mod(d as nat, m as nat);
        vstd::arithmetic::div_mod::lemma_sub_mod_noop(-x, x, m);
        vstd::arithmetic::div_mod::lemma_add_mod_noop(-x - x, x, m);
        vstd::arithmetic::div_mod::lemma_small_mod(x as nat, m as nat);
    }
}

/// `sign * (-x - x) + x`, appending the booleanity constraint of `sign`.
pub fn eval_plus_or_minus(constraints: &mut Vec<u64>, sign: u64, x: u64) -> (r: u64)
    requires
        sign < ORDER,
        x < ORDER,
    ensures
        r < ORDER,
        r as int == plus_or_minus(sign as int, x as int),
        final(constraints)@ == old(constraints)@.push(
            fsub(fmul(sign as int, sign as int), sign as int) as u64,
        ),
{
    let sq = field_mul(sign, sign);
    constraints.push(field_sub(sq, sign));
    let x_neg = field_neg(x);
    let d = field_sub(x_neg, x);
    let m = field_mul(sign, d);
    field_add(m, x)
}

/// Entrywise `flag * (a - b) + b`: `vec_a` when `flag` is 1, `vec_b` when it is 0.
pub fn eval_select_vec(flag: u64, vec_a: &[u64], vec_b: &[u64]) -> (r: Vec<u64>)
    requires
        flag < ORDER,
        vec_a@.len() == vec_b@.len(),
        canonical(vec_a@),
        canonical(vec_b@),
    ensures
        r@ == select_seq(flag, vec_a@, vec_b@),
        canonical(r@),
{
    let mut out: Vec<u64> = Vec::with_capacity(vec_a.len());
    let mut i: usize = 0;
    while i < vec_a.len()
        invariant
            i <= vec_a@.len() == vec_b@.len(),
            flag < ORDER,
            canonical(vec_a@),
            canonical(vec_b@),
            out@ == select_seq(flag, vec_a@, vec_b@).take(i as int),
        decreases vec_a@.len() - i,
    {
        let d = field_sub(vec_a[i], vec_b[i]);
        let m = field_mul(flag, d);
        out.push(field_add(m, vec_b[i]));
        i += 1;
        assert(out@ =~= select_seq(flag, vec_a@, vec_b@).take(i as int));
    }
    assert(out@ =~= select_seq(flag, vec_a@, vec_b@));
    out
}

/// `2^e` as a machine integer.
pub fn pow2_u64(e: usize) -> (r: u64)
    requires
        e < 64,
    ensures
        r as nat == pow2(e as nat),
{
    let mut r: u64 = 1;
    let mut i: usize = 0;
    proof {
        vstd::arithmetic::power2::lemma2_to64();
    }
    while i < e
        invariant
            i <= e < 64,
            r as nat == pow2(i as nat),
        decreases e - i,
    {
        proof {
            vstd::arithmetic::power2::lemma_pow2_unfold(i as nat + 1);
            vstd::arithmetic::power2::lemma_pow2_strictly_increases(i as nat + 1, 64);
            vstd::arithmetic::power2::lemma2_to64();
        }
        r = 2 * r;
        i += 1;
    }
    r
}

proof fn lemma_chunk_bounds(c: int, logb: nat)
    requires
        0 < logb < 64,
        0 <= c < num_limbs(logb),
    ensures
        chunk_start(c, logb) < NUM_BITS,
        chunk_start(c, logb) < chunk_end(c, logb, NUM_BITS as nat) <= NUM_BITS,
        chunk_end(c, logb, NUM_BITS as nat) <= chunk_start(c, logb) + logb,
        c > 0 ==> chunk_end(c - 1, logb, NUM_BITS as nat) == chunk_start(c, logb),
        (c + 1) * logb == c * logb + logb,
{
    let nl = num_limbs(logb) as int;
    vstd::arithmetic::div_mod::lemma_fundamental_div_mod(NUM_BITS + logb - 1, logb as int);
    vstd::arithmetic::div_mod::lemma_mod_pos_bound(NUM_BITS + logb - 1, logb as int);
    assert(c * logb <= (nl - 1) * logb) by (nonlinear_arith)
        requires
            c <= nl - 1,
            logb > 0,
    ;
    assert((nl - 1) * logb == nl * logb - logb) by (nonlinear_arith);
    assert(nl * logb == logb * nl) by (nonlinear_arith);
    assert((c + 1) * logb == c * logb + logb) by (nonlinear_arith);
    assert(c * logb == (c - 1 + 1) * logb);
    assert(c * logb >= 0) by (nonlinear_arith)
        requires
            c >= 0,
    ;
}

/// The balanced digits of the centered bits, each passed through
/// `plus_or_minus(sign, .)` whose booleanity constraint is appended when
/// `constraints` is given.
fn digits_of_centered(
    constraints: &mut Vec<u64>,
    centered: &[u64],
    sign: u64,
    logb: usize,
) -> (r: Vec<u64>)
    requires
        centered@.len() == NUM_BITS,
        canonical(centered@),
        sign < ORDER,
        0 < logb < 64,
    ensures
        r@ == digits(centered@, sign, logb as nat),
        canonical(r@),
        final(constraints)@ == old(constraints)@ + Seq::new(
            num_limbs(logb as nat),
            |c: int| fsub(fmul(sign as int, sign as int), sign as int) as u64,
        ),
{
    let ghost start = constraints@;
    let ghost sq = fsub(fmul(sign as int, sign as int), sign as int) as u64;
    let nl: usize = (NUM_BITS + logb - 1) / logb;
    let base = pow2_u64(logb);
    proof {
        vstd::arithmetic::power2::lemma_pow2_strictly_increases(logb as nat, 64);
        vstd::arithmetic::power2::lemma2_to64();
        vstd::arithmetic::power2::lemma2_to64_rest();
        if logb < 63 {
            vstd::arithmetic::power2::lemma_pow2_strictly_increases(logb as nat, 63);
        }
    }
    assert(base < ORDER);
    let mut carry: u64 = 0;
    let mut out: Vec<u64> = Vec::new();
    let mut c: usize = 0;
    while c < nl
        invariant
            centered@.len() == NUM_BITS,
            canonical(centered@),
            sign < ORDER,
            0 < logb < 64,
            nl == num_limbs(logb as nat),
            base as nat == pow2(logb as nat),
            base < ORDER,
            c <= nl,
            carry < ORDER,
            c < nl ==> carry as int == if c == 0 {
                0
            } else {
                chunk(centered@, c - 1, logb as nat).last() as int
            },
            out@ == digits(centered@, sign, logb as nat).take(c as int),
            sq == fsub(fmul(sign as int, sign as int), sign as int) as u64,
            constraints@ == start + Seq::new(c as nat, |i: int| sq),
        decreases nl - c,
    {
        proof {
            lemma_chunk_bounds(c as int, logb as nat);
        }
        let s: usize = c * logb;
        let e: usize = if s + logb < NUM_BITS { s + logb } else { NUM_BITS };
        let k = le_sum_range(centered, s, e);
        let k_w_carry = field_add(k, carry);
        let top = centered[e - 1];
        let balancer = field_mul(top, base);
        let balanced = field_sub(k_w_carry, balancer);
        proof {
            let w = chunk(centered@, c as int, logb as nat);
            assert(w == centered@.subrange(s as int, e as int));
            assert(w.last() == top);
            assert(balanced as int == balanced_digit(centered@, c as int, logb as nat));
        }
        let d = eval_plus_or_minus(constraints, sign, balanced);
        out.push(d);
        carry = top;
        c += 1;
        proof {
            assert(out@ =~= digits(centered@, sign, logb as nat).take(c as int));
            assert(constraints@ =~= start + Seq::new(c as nat, |i: int| sq));
            if c < nl {
                lemma_chunk_bounds(c as int, logb as nat);
            }
        }
    }
    assert(out@ =~= digits(centered@, sign, logb as nat));
    proof {
        assert forall|i: int| 0 <= i < out@.len() implies (#[trigger] out@[i]) < ORDER by {
            assert(out@[i] == digits(centered@, sign, logb as nat)[i]);
        }
    }
    out
}

/// Balanced base-`2^logb` digits of a field element from its bits and the
/// bits of its negation: the sign bit (bit 63) picks the bits that are
/// decomposed, and negates every digit when set.
pub fn decompose_native(bits: &[u64], neg_bits: &[u64], logb: usize) -> (r: Vec<u64>)
    requires
        bits@.len() == NUM_BITS,
        neg_bits@.len() == NUM_BITS,
        canonical(bits@),
        canonical(neg_bits@),
        0 < logb < 64,
    ensures
        r@ == digits(
            if bits@[63] == 1 {
                neg_bits@
            } else {
                bits@
            },
            if bits@[63] == 1 {
                1u64
            } else {
                0u64
            },
            logb as nat,
        ),
        canonical(r@),
{
    let negative = bits[NUM_BITS - 1] == 1;
    let sign: u64 = if negative { 1 } else { 0 };
    let mut scratch: Vec<u64> = Vec::new();
    if negative {
        digits_of_centered(&mut scratch, neg_bits, sign, logb)
    } else {
        digits_of_centered(&mut scratch, bits, sign, logb)
    }
}

/// Checks `x` against its bits and decomposes it: appends the booleanity
/// constraint of each bit and `filter * (x - sum_i bits[i] * 2^i)`, computes
/// the bits of `-x` by [`eval_neg_ele`], selects them by the sign bit, and
/// returns their balanced digits with the sign restored.
pub fn eval_decompose_coeff(
    constraints: &mut Vec<u64>,
    filter: u64,
    x: u64,
    x_bit_dec: &[u64],
    logb: usize,
) -> (r: Vec<u64>)
    requires
        filter < ORDER,
        x < ORDER,
        x_bit_dec@.len() == NUM_BITS,
        canonical(x_bit_dec@),
        0 < logb < 64,
    ensures
        r@.len() == num_limbs(logb as nat),
        canonical(r@),
        all_bits(x_bit_dec@) ==> r@ == digits(
            select_seq(x_bit_dec@[63], neg_bits_of(x_bit_dec@), x_bit_dec@),
            x_bit_dec@[63],
            logb as nat,
        ),
        final(constraints)@ == old(constraints)@ + coeff_constraints(filter, x, x_bit_dec@, logb as nat),
{
    let ghost start = constraints@;
    let cal_x = eval_le_sum(constraints, x_bit_dec);
    let diff = field_sub(x, cal_x);
    constraints.push(field_mul(filter, diff));
    let ghost mid = constraints@;
    let neg_x_bit_dec = eval_neg_ele(x_bit_dec);
    let sgn = x_bit_dec[NUM_BITS - 1];
    let bits_centered = eval_select_vec(sgn, &neg_x_bit_dec, x_bit_dec);
    proof {
        if all_bits(x_bit_dec@) {
            lemma_to_bits(neg_x_bit_dec@);
        }
    }
    let r = digits_of_centered(constraints, &bits_centered, sgn, logb);
    assert(constraints@ =~= start + bool_constraints(x_bit_dec@) + seq![
        fmul(filter as int, fsub(x as int, bits_val(x_bit_dec@) % p())) as u64,
    ] + Seq::new(
        num_limbs(logb as nat),
        |c: int| fsub(fmul(sgn as int, sgn as int), sgn as int) as u64,
    ));
    assert(constraints@ =~= start + coeff_constraints(filter, x, x_bit_dec@, logb as nat));
    r
}

/// Every row has length `n` and canonical entries.
pub open spec fn canonical_rows(v: Seq<Seq<u64>>, n: nat) -> bool {
    forall|i: int| 0 <= i < v.len() ==> (#[trigger] v[i]).len() == n && canonical(v[i])
}

/// The digits that [`decompose_native`] returns for the bits of a coefficient
/// and of its negation.
pub open spec fn native_digits(bits: Seq<u64>, neg_bits: Seq<u64>, logb: nat) -> Seq<u64> {
    digits(
        if bits[63] == 1 {
            neg_bits
        } else {
            bits
        },
        if bits[63] == 1 {
            1u64
        } else {
            0u64
        },
        logb,
    )
}

/// A binary representation has its length and holds bits only.
pub proof fn lemma_to_bits_wf(v: int, len: nat)
    ensures
        to_bits(v, len).len() == len,
        all_bits(to_bits(v, len)),
        canonical(to_bits(v, len)),
    decreases len,
{
    if len > 0 {
        lemma_to_bits_wf(v / 2, (len - 1) as nat);
        let s = to_bits(v, len);
        assert forall|i: int| 0 <= i < s.len() implies is_bit(#[trigger] s[i]) && s[i] < ORDER by {
            if i > 0 {
                assert(s[i] == to_bits(v / 2, (len - 1) as nat)[i - 1]);
            }
        }
    }
}

/// The value of a binary representation is the number modulo `2^len`.
pub proof fn lemma_bits_val_to_bits(v: int, len: nat)
    requires
        v >= 0,
    ensures
        bits_val(to_bits(v, len)) == v % (pow2(len) as int),
    decreases len,
{
    vstd::arithmetic::power2::lemma_pow2_pos(len);
    if len == 0 {
        vstd::arithmetic::power2::lemma2_to64();
        assert(to_bits(v, 0) =~= Seq::<u64>::empty());
    } else {
        let s = to_bits(v, len);
        lemma_bits_val_to_bits(v / 2, (len - 1) as nat);
        assert(s.drop_first() =~= to_bits(v / 2, (len - 1) as nat));
        vstd::arithmetic::power2::lemma_pow2_unfold(len);
        vstd::arithmetic::power2::lemma_pow2_pos((len - 1) as nat);
        vstd::arithmetic::div_mod::lemma_mod_breakdown(v, 2, pow2((len - 1) as nat) as int);
    }
}

pub proof fn lemma_bits_val_concat(a: Seq<u64>, b: Seq<u64>)
    ensures
        bits_val(a + b) == bits_val(a) + pow2(a.len()) * bits_val(b),
    decreases b.len(),
{
    if b.len() == 0 {
        assert(a + b =~= a);
    } else {
        let bl = b.drop_last();
        lemma_bits_val_concat(a, bl);
        assert(a + b =~= (a + bl).push(b.last()));
        assert(b =~= bl.push(b.last()));
        lemma_bits_val_push(a + bl, b.last());
        lemma_bits_val_push(bl, b.last());
        vstd::arithmetic::power2::lemma_pow2_adds(a.len(), bl.len());
        let pa = pow2(a.len()) as int;
        assert(pa * (bits_val(bl) + b.last() * pow2(bl.len())) == pa * bits_val(bl) + b.last() * (pa
            * pow2(bl.len()))) by (nonlinear_arith);
    }
}

/// The top bit of a bit vector tells whether its value reaches half its range.
pub proof fn lemma_top_bit(s: Seq<u64>)
    requires
        all_bits(s),
        s.len() > 0,
    ensures
        bits_val(s) < pow2(s.len()),
        s.last() == 0 ==> bits_val(s) < pow2((s.len() - 1) as nat),
        s.last() == 1 ==> bits_val(s) >= pow2((s.len() - 1) as nat),
{
    let init = s.drop_last();
    assert(s =~= init.push(s.last()));
    lemma_bits_val_push(init, s.last());
    lemma_bits_val_bound(init);
    lemma_bits_val_bound(s);
    assert(is_bit(s.last()));
    let q = pow2((s.len() - 1) as nat) as int;
    assert(init.len() == s.len() - 1);
    assert(bits_val(s) == bits_val(init) + s.last() * q);
    if s.last() == 1 {
        assert(s.last() * q == q);
    } else {
        assert(s.last() * q == 0);
    }
}

/// Digit `i` over the integers: window value plus carry, less `2^logb` when
/// the window's top bit is set.
pub open spec fn int_digit(c: Seq<u64>, i: int, logb: nat) -> int {
    let w = chunk(c, i, logb);
    let carry: int = if i == 0 {
        0
    } else {
        chunk(c, i - 1, logb).last() as int
    };
    bits_val(w) + carry - w.last() * pow2(logb)
}

/// `sum_{i < k} d[i] * 2^(i * logb)` over the integers, for integer digits.
pub open spec fn int_recompose(c: Seq<u64>, logb: nat, k: nat) -> int
    decreases k,
{
    if k == 0 {
        0
    } else {
        int_recompose(c, logb, (k - 1) as nat) + int_digit(c, k - 1, logb) * pow2(((k - 1) * logb) as nat)
    }
}

proof fn lemma_telescope(c: Seq<u64>, logb: nat, k: nat)
    requires
        c.len() == NUM_BITS,
        all_bits(c),
        0 < logb < 64,
        1 <= k <= num_limbs(logb),
    ensures
        int_recompose(c, logb, k) == bits_val(c.take(chunk_end(k - 1, logb, NUM_BITS as nat))) - chunk(
            c,
            k - 1,
            logb,
        ).last() * pow2(k * logb),
    decreases k,
{
    let i = k - 1;
    lemma_chunk_bounds(i, logb);
    let w = chunk(c, i, logb);
    let e = chunk_end(i, logb, NUM_BITS as nat);
    vstd::arithmetic::power2::lemma_pow2_adds(logb, (i * logb) as nat);
    assert(logb + i * logb == k * logb) by (nonlinear_arith)
        requires
            i == k - 1,
    ;
    if k == 1 {
        vstd::arithmetic::power2::lemma2_to64();
        assert(w =~= c.take(e));
        assert(0 * logb == 0);
        assert(int_recompose(c, logb, 0) == 0);
    } else {
        lemma_telescope(c, logb, (k - 1) as nat);
        lemma_chunk_bounds(i - 1, logb);
        let s = chunk_start(i, logb);
        assert(c.take(e) =~= c.take(s) + w);
        lemma_bits_val_concat(c.take(s), w);
        let q = pow2((i * logb) as nat) as int;
        let top_prev = chunk(c, i - 1, logb).last() as int;
        let top = w.last() as int;
        let v = bits_val(w);
        assert((v + top_prev - top * pow2(logb)) * q == v * q + top_prev * q - top * (pow2(logb) * q))
            by (nonlinear_arith);
        assert(q * v == v * q) by (nonlinear_arith);
    }
}

/// A digit lies in `[-2^(logb-1), 2^(logb-1)]` when the top bit of the bits is clear.
proof fn lemma_int_digit_bound(c: Seq<u64>, i: int, logb: nat)
    requires
        c.len() == NUM_BITS,
        all_bits(c),
        c[63] == 0,
        0 < logb < 64,
        0 <= i < num_limbs(logb),
    ensures
        -pow2((logb - 1) as nat) <= int_digit(c, i, logb) <= pow2((logb - 1) as nat),
        -0x4000_0000_0000_0000 <= int_digit(c, i, logb) <= 0x4000_0000_0000_0000,
{
    lemma_chunk_bounds(i, logb);
    let w = chunk(c, i, logb);
    let h = pow2((logb - 1) as nat) as int;
    vstd::arithmetic::power2::lemma_pow2_unfold(logb);
    vstd::arithmetic::power2::lemma2_to64_rest();
    if logb - 1 < 62 {
        vstd::arithmetic::power2::lemma_pow2_strictly_increases((logb - 1) as nat, 62);
    }
    assert(h <= pow2(62));
    assert forall|j: int| 0 <= j < w.len() implies is_bit(#[trigger] w[j]) by {
        assert(w[j] == c[chunk_start(i, logb) + j]);
    }
    lemma_top_bit(w);
    lemma_bits_val_bound(w);
    let v = bits_val(w);
    let carry: int = if i == 0 {
        0
    } else {
        chunk(c, i - 1, logb).last() as int
    };
    if i > 0 {
        lemma_chunk_bounds(i - 1, logb);
        let pw = chunk(c, i - 1, logb);
        assert(pw.last() == c[chunk_end(i - 1, logb, NUM_BITS as nat) - 1]);
        assert(is_bit(pw.last()));
    }
    assert(0 <= carry <= 1);
    if w.len() < logb {
        assert(chunk_end(i, logb, NUM_BITS as nat) == NUM_BITS);
        assert(w.last() == c[63]);
        if w.len() < logb - 1 {
            vstd::arithmetic::power2::lemma_pow2_strictly_increases(w.len(), (logb - 1) as nat);
        }
        assert(v < h);
        assert(int_digit(c, i, logb) == v + carry);
    } else {
        assert(w.len() == logb);
        if w.last() == 0 {
            assert(v < h);
            assert(int_digit(c, i, logb) == v + carry);
        } else {
            assert(is_bit(w.last()));
            assert(h <= v < 2 * h);
            assert(int_digit(c, i, logb) == v + carry - 2 * h);
        }
    }
}

/// The field digit is the integer digit modulo the order.
proof fn lemma_field_digit(c: Seq<u64>, i: int, logb: nat)
    requires
        c.len() == NUM_BITS,
        all_bits(c),
        0 < logb < 64,
        0 <= i < num_limbs(logb),
    ensures
        balanced_digit(c, i, logb) == int_digit(c, i, logb) % p(),
{
    lemma_chunk_bounds(i, logb);
    let w = chunk(c, i, logb);
    assert forall|j: int| 0 <= j < w.len() implies is_bit(#[trigger] w[j]) by {
        assert(w[j] == c[chunk_start(i, logb) + j]);
    }
    lemma_top_bit(w);
    if w.len() < 63 {
        vstd::arithmetic::power2::lemma_pow2_strictly_increases(w.len(), 63);
    }
    vstd::arithmetic::power2::lemma2_to64_rest();
    lemma_bits_val_bound(w);
    assert(w.len() <= 63);
    assert(bits_val(w) < pow2(63));
    if i > 0 {
        lemma_chunk_bounds(i - 1, logb);
    }
    vstd::arithmetic::div_mod::lemma_small_mod(bits_val(w) as nat, p() as nat);
    let carry: int = if i == 0 {
        0
    } else {
        chunk(c, i - 1, logb).last() as int
    };
    vstd::arithmetic::div_mod::lemma_sub_mod_noop(bits_val(w) + carry, w.last() * pow2(logb), p());
}

/// `sum_{i < k} d[i] * 2^(i * logb)` over the integers.
pub open spec fn weighted_sum(d: Seq<u64>, logb: nat, k: nat) -> int
    decreases k,
{
    if k == 0 {
        0
    } else {
        weighted_sum(d, logb, (k - 1) as nat) + d[k - 1] * pow2(((k - 1) * logb) as nat)
    }
}

/// A field element read as a signed integer: below half the order it is
/// itself, above it is negative.
pub open spec fn signed(x: u64) -> int {
    if x as int > p() / 2 {
        x - p()
    } else {
        x as int
    }
}

proof fn lemma_weighted_congruent(d: Seq<u64>, c: Seq<u64>, logb: nat, k: nat, sgn: int)
    requires
        sgn == 1 || sgn == -1,
        k <= d.len(),
        forall|i: int| 0 <= i < k ==> (#[trigger] d[i]) as int % p() == (sgn * int_digit(c, i, logb)) % p(),
    ensures
        weighted_sum(d, logb, k) % p() == (sgn * int_recompose(c, logb, k)) % p(),
    decreases k,
{
    if k > 0 {
        let m = p();
        let i = k - 1;
        lemma_weighted_congruent(d, c, logb, (k - 1) as nat, sgn);
        let q = pow2((i * logb) as nat) as int;
        let a = weighted_sum(d, logb, (k - 1) as nat);
        let b = sgn * int_recompose(c, logb, (k - 1) as nat);
        let e = sgn * int_digit(c, i, logb);
        vstd::arithmetic::div_mod::lemma_add_mod_noop(a, d[i] * q, m);
        vstd::arithmetic::div_mod::lemma_add_mod_noop(b, e * q, m);
        vstd::arithmetic::div_mod::lemma_mul_mod_noop_left(d[i] as int, q, m);
        vstd::arithmetic::div_mod::lemma_mul_mod_noop_left(e, q, m);
        assert(d[i] as int % m == e % m);
        let r = int_recompose(c, logb, (k - 1) as nat);
        let dd = int_digit(c, i, logb);
        assert(sgn * (r + dd * q) == b + e * q) by (nonlinear_arith)
            requires
                b == sgn * r,
                e == sgn * dd,
        ;
        assert(int_recompose(c, logb, k) == r + dd * q);
        assert(weighted_sum(d, logb, k) == a + d[i] * q);
        assert(a % m == b % m);
        assert((d[i] * q) % m == (e * q) % m);
        assert(weighted_sum(d, logb, k) % m == (b + e * q) % m);
        assert(sgn * int_recompose(c, logb, k) == b + e * q);
    } else {
        assert(sgn * 0 == 0) by (nonlinear_arith);
    }
}

/// A field digit is the signed integer digit modulo the order, and reads back
/// as that signed integer.
proof fn lemma_digit_value(c: Seq<u64>, i: int, logb: nat, negative: bool)
    requires
        c.len() == NUM_BITS,
        all_bits(c),
        c[63] == 0,
        0 < logb < 64,
        0 <= i < num_limbs(logb),
    ensures
        ({
            let d = digits(c, if negative { 1u64 } else { 0u64 }, logb)[i];
            let se = (if negative { -1int } else { 1int }) * int_digit(c, i, logb);
            &&& d as int % p() == se % p()
            &&& signed(d) == se
        }),
{
    lemma_field_digit(c, i, logb);
    lemma_int_digit_bound(c, i, logb);
    let bd = balanced_digit(c, i, logb);
    let e = int_digit(c, i, logb);
    let s: u64 = if negative { 1 } else { 0 };
    let d = digits(c, s, logb)[i];
    let se = if negative { -e } else { e };
    assert(se == (if negative { -1int } else { 1int }) * e) by (nonlinear_arith)
        requires
            se == if negative { -e } else { e },
    ;
    lemma_plus_or_minus_bit(s as int, bd);
    assert(bd == e % p());
    assert(0 <= bd < p());
    if negative {
        assert(plus_or_minus(1, bd) == fneg(bd));
        vstd::arithmetic::div_mod::lemma_sub_mod_noop(0, e, p());
        vstd::arithmetic::div_mod::lemma_small_mod(0, p() as nat);
        assert(fneg(bd) == (0 - e) % p());
        assert(d as int == fneg(bd));
        assert(se == 0 - e);
    } else {
        assert(plus_or_minus(0, bd) == bd);
        assert(d as int == bd);
    }
    assert(d as int == se % p());
    vstd::arithmetic::div_mod::lemma_mod_twice(se, p());
    if se >= 0 {
        vstd::arithmetic::div_mod::lemma_small_mod(se as nat, p() as nat);
    } else {
        vstd::arithmetic::div_mod::lemma_fundamental_div_mod_converse(se, p(), -1, se + p());
    }
}

/// Bit 63 of a 64-bit representation is set exactly from `2^63` on.
proof fn lemma_sign_bit(v: int)
    requires
        0 <= v < pow2(64),
    ensures
        to_bits(v, NUM_BITS as nat)[63] == (if v >= pow2(63) { 1u64 } else { 0u64 }),
        bits_val(to_bits(v, NUM_BITS as nat)) == v,
{
    let s = to_bits(v, NUM_BITS as nat);
    lemma_to_bits_wf(v, NUM_BITS as nat);
    lemma_bits_val_to_bits(v, NUM_BITS as nat);
    vstd::arithmetic::div_mod::lemma_small_mod(v as nat, pow2(64));
    lemma_top_bit(s);
    assert(is_bit(s[63]));
}

/// Balanced decomposition of a field element `x` from the bits of `x` and of
/// `-x`: recomposing the digits with weights `2^(i * logb)` gives back `x`,
/// and every digit, read as a signed integer, lies in `[-2^(logb-1), 2^(logb-1)]`.
pub proof fn lemma_decompose_native(x: u64, logb: nat)
    requires
        x < ORDER,
        0 < logb < 64,
    ensures
        ({
            let d = native_digits(to_bits(x as int, NUM_BITS as nat), to_bits(fneg(x as int), NUM_BITS as nat), logb);
            &&& d.len() == num_limbs(logb)
            &&& weighted_sum(d, logb, num_limbs(logb)) % p() == x
            &&& forall|i: int|
                0 <= i < num_limbs(logb) ==> -pow2((logb - 1) as nat) <= signed(#[trigger] d[i]) <= pow2(
                    (logb - 1) as nat,
                )
        }),
{
    let bits = to_bits(x as int, NUM_BITS as nat);
    let nb = to_bits(fneg(x as int), NUM_BITS as nat);
    let d = native_digits(bits, nb, logb);
    let nl = num_limbs(logb);
    vstd::arithmetic::power2::lemma2_to64_rest();
    lemma_sign_bit(x as int);
    let negative = x as int >= pow2(63);
    if negative {
        vstd::arithmetic::div_mod::lemma_small_mod((p() - x) as nat, p() as nat);
        vstd::arithmetic::div_mod::lemma_mod_add_multiples_vanish(-(x as int), p());
        assert(fneg(x as int) == p() - x);
        lemma_sign_bit(fneg(x as int));
    }
    let c = if negative { nb } else { bits };
    let sgn: int = if negative { -1 } else { 1 };
    let y = bits_val(c);
    lemma_to_bits_wf(x as int, NUM_BITS as nat);
    lemma_to_bits_wf(fneg(x as int), NUM_BITS as nat);
    assert(c[63] == 0);
    assert(nl >= 1) by {
        vstd::arithmetic::div_mod::lemma_fundamental_div_mod(NUM_BITS + logb - 1, logb as int);
        vstd::arithmetic::div_mod::lemma_mod_pos_bound(NUM_BITS + logb - 1, logb as int);
        assert(nl as int * logb >= NUM_BITS) by (nonlinear_arith)
            requires
                NUM_BITS + logb - 1 == logb * nl + (NUM_BITS + logb - 1) % (logb as int),
                (NUM_BITS + logb - 1) % (logb as int) < logb,
        ;
        assert(nl >= 1) by (nonlinear_arith)
            requires
                nl as int * logb >= NUM_BITS,
                logb > 0,
        ;
    }
    // the digits telescope to the value of the centered bits
    lemma_telescope(c, logb, nl);
    lemma_chunk_bounds(nl - 1, logb);
    assert(chunk_end(nl - 1, logb, NUM_BITS as nat) == NUM_BITS) by {
        vstd::arithmetic::div_mod::lemma_fundamental_div_mod(NUM_BITS + logb - 1, logb as int);
        vstd::arithmetic::div_mod::lemma_mod_pos_bound(NUM_BITS + logb - 1, logb as int);
        assert(nl as int * logb >= NUM_BITS) by (nonlinear_arith)
            requires
                NUM_BITS + logb - 1 == logb * nl + (NUM_BITS + logb - 1) % (logb as int),
                (NUM_BITS + logb - 1) % (logb as int) < logb,
        ;
    }
    assert(c.take(NUM_BITS as int) =~= c);
    assert(chunk(c, nl - 1, logb).last() == c[63]);
    let top_last = chunk(c, nl - 1, logb).last();
    assert(top_last == 0);
    assert(top_last * pow2(nl * logb) == 0) by (nonlinear_arith)
        requires
            top_last == 0,
    ;
    assert(bits_val(c.take(chunk_end(nl - 1, logb, NUM_BITS as nat))) == y);
    assert(int_recompose(c, logb, nl) == y);
    // each field digit is the signed integer digit modulo the order
    assert forall|i: int| 0 <= i < nl implies (#[trigger] d[i]) as int % p() == (sgn * int_digit(c, i, logb))
        % p() && signed(d[i]) == sgn * int_digit(c, i, logb) by {
        lemma_digit_value(c, i, logb, negative);
    }
    assert forall|i: int| 0 <= i < nl implies -pow2((logb - 1) as nat) <= signed(#[trigger] d[i]) <= pow2(
        (logb - 1) as nat,
    ) by {
        lemma_digit_value(c, i, logb, negative);
        lemma_int_digit_bound(c, i, logb);
    }
    lemma_weighted_congruent(d, c, logb, nl, sgn);
    if negative {
        vstd::arithmetic::div_mod::lemma_mod_add_multiples_vanish(x - p(), p());
        vstd::arithmetic::div_mod::lemma_small_mod(x as nat, p() as nat);
    } else {
        vstd::arithmetic::div_mod::lemma_small_mod(x as nat, p() as nat);
    }
    vstd::arithmetic::power2::lemma_pow2_pos((logb - 1) as nat);
}

/// On the bits of a field element, the digits that the constraint form
/// computes (negation by adders, selection by the sign bit) are the digits of
/// the trace form, which is handed the bits of the negation.
pub proof fn lemma_eval_digits_native(x: u64, logb: nat)
    requires
        x < ORDER,
        0 < logb < 64,
    ensures
        ({
            let bits = to_bits(x as int, NUM_BITS as nat);
            digits(select_seq(bits[63], neg_bits_of(bits), bits), bits[63], logb) == native_digits(
                bits,
                to_bits(fneg(x as int), NUM_BITS as nat),
                logb,
            )
        }),
{
    let bits = to_bits(x as int, NUM_BITS as nat);
    let nb = to_bits(fneg(x as int), NUM_BITS as nat);
    let nbo = neg_bits_of(bits);
    vstd::arithmetic::power2::lemma2_to64_rest();
    lemma_sign_bit(x as int);
    lemma_to_bits_wf(x as int, NUM_BITS as nat);
    let sel = select_seq(bits[63], nbo, bits);
    if bits[63] == 1 {
        let n = pow2(64) as int;
        vstd::arithmetic::div_mod::lemma_small_mod((n - x) as nat, n as nat);
        vstd::arithmetic::div_mod::lemma_fundamental_div_mod_converse(n - x + ORDER, n, 1, ORDER - x);
        vstd::arithmetic::div_mod::lemma_small_mod((p() - x) as nat, p() as nat);
        vstd::arithmetic::div_mod::lemma_mod_add_multiples_vanish(-(x as int), p());
        assert(fneg(x as int) == p() - x);
        assert(nbo == nb);
        lemma_to_bits_wf(fneg(x as int), NUM_BITS as nat);
        assert forall|i: int| 0 <= i < NUM_BITS implies #[trigger] sel[i] == nb[i] by {
            let a = nb[i] as int;
            let b = bits[i] as int;
            lemma_fmul_one_field(fsub(a, b));
            vstd::arithmetic::div_mod::lemma_add_mod_noop(a - b, b, p());
            vstd::arithmetic::div_mod::lemma_small_mod(b as nat, p() as nat);
            vstd::arithmetic::div_mod::lemma_small_mod(a as nat, p() as nat);
        }
        assert(sel =~= nb);
    } else {
        assert(is_bit(bits[63]));
        assert(bits[63] == 0);
        lemma_to_bits_wf(
            ((pow2(64) - bits_val(bits)) % (pow2(64) as int) + ORDER) % (pow2(64) as int),
            NUM_BITS as nat,
        );
        assert forall|i: int| 0 <= i < NUM_BITS implies #[trigger] sel[i] == bits[i] by {
            let b = bits[i] as int;
            let d = fsub(nbo[i] as int, b);
            assert(0 * d == 0) by (nonlinear_arith);
            vstd::arithmetic::div_mod::lemma_small_mod(0, p() as nat);
            vstd::arithmetic::div_mod::lemma_small_mod(b as nat, p() as nat);
            assert(select(0, nbo[i] as int, b) == b);
        }
        assert(sel =~= bits);
    }
}

proof fn lemma_fmul_one_field(v: int)
    requires
        0 <= v < p(),
    ensures
        fmul(1, v) == v,
{
    vstd::arithmetic::div_mod::lemma_small_mod(v as nat, p() as nat);
}

/// The constraints that [`eval_decompose_coeff`] appends for the coefficient
/// `x` with the witnessed bits `bits`: the booleanity of each bit,
/// `filter * (x - sum_i bits[i] * 2^i)`, and the booleanity of the sign bit
/// once per digit.
pub open spec fn coeff_constraints(filter: u64, x: u64, bits: Seq<u64>, logb: nat) -> Seq<u64> {
    let sign = bits[63] as int;
    bool_constraints(bits) + seq![fmul(filter as int, fsub(x as int, bits_val(bits) % p())) as u64]
        + Seq::new(num_limbs(logb), |c: int| fsub(fmul(sign, sign), sign) as u64)
}

/// Every entry is zero: every constraint holds.
pub open spec fn all_zero(s: Seq<u64>) -> bool {
    forall|i: int| 0 <= i < s.len() ==> #[trigger] s[i] == 0
}

pub proof fn lemma_all_zero_concat(a: Seq<u64>, b: Seq<u64>)
    requires
        all_zero(a),
        all_zero(b),
    ensures
        all_zero(a + b),
{
    assert forall|i: int| 0 <= i < (a + b).len() implies #[trigger] (a + b)[i] == 0 by {
        if i < a.len() {
            assert((a + b)[i] == a[i]);
        } else {
            assert((a + b)[i] == b[i - a.len()]);
        }
    }
}

/// The decomposition constraints hold on the bits of a field element.
pub proof fn lemma_coeff_constraints_zero(filter: u64, x: u64, logb: nat)
    requires
        x < ORDER,
    ensures
        all_zero(coeff_constraints(filter, x, to_bits(x as int, NUM_BITS as nat), logb)),
{
    let bits = to_bits(x as int, NUM_BITS as nat);
    lemma_to_bits_wf(x as int, NUM_BITS as nat);
    vstd::arithmetic::power2::lemma2_to64_rest();
    lemma_bits_val_to_bits(x as int, NUM_BITS as nat);
    vstd::arithmetic::div_mod::lemma_small_mod(x as nat, pow2(64));
    vstd::arithmetic::div_mod::lemma_small_mod(x as nat, p() as nat);
    lemma_small_field_values();
    let bc = bool_constraints(bits);
    assert forall|i: int| 0 <= i < bc.len() implies #[trigger] bc[i] == 0 by {
        assert(is_bit(bits[i]));
    }
    let mid = seq![fmul(filter as int, fsub(x as int, bits_val(bits) % p())) as u64];
    assert(fsub(x as int, x as int) == 0);
    assert(filter as int * 0 == 0);
    assert(mid[0] == 0);
    assert(all_zero(mid));
    let sign = bits[63] as int;
    assert(is_bit(bits[63]));
    let sc = Seq::new(num_limbs(logb), |c: int| fsub(fmul(sign, sign), sign) as u64);
    assert(all_zero(sc));
    lemma_all_zero_concat(bc, mid);
    lemma_all_zero_concat(bc + mid, sc);
}

/// With the filter off and all bits zero, the decomposition constraints hold.
pub proof fn lemma_coeff_constraints_idle(x: u64, bits: Seq<u64>, logb: nat)
    requires
        bits.len() == NUM_BITS,
        forall|t: int| 0 <= t < bits.len() ==> #[trigger] bits[t] == 0,
    ensures
        all_zero(coeff_constraints(0, x, bits, logb)),
{
    lemma_small_field_values();
    vstd::arithmetic::div_mod::lemma_small_mod(0, p() as nat);
    let bc = bool_constraints(bits);
    assert forall|i: int| 0 <= i < bc.len() implies #[trigger] bc[i] == 0 by {
        assert(bits[i] == 0);
    }
    let mid = seq![fmul(0, fsub(x as int, bits_val(bits) % p())) as u64];
    assert(0 * fsub(x as int, bits_val(bits) % p()) == 0);
    assert(all_zero(mid));
    assert(bits[63] == 0);
    let sc = Seq::new(num_limbs(logb), |c: int| fsub(fmul(0, 0), 0) as u64);
    assert(all_zero(sc));
    lemma_all_zero_concat(bc, mid);
    lemma_all_zero_concat(bc + mid, sc);
}

} // verus!
