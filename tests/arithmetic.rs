use vtfhe::decompose::{
    decompose_native, eval_decompose_coeff, eval_full_adder, eval_half_adder, eval_neg_ele,
    eval_two_s_comp, le_sum_native,
};
use vtfhe::field::{field_add, field_mul, field_neg, field_pow, field_sub, ORDER};
use vtfhe::glwe_ct::decimal_to_binary;
use vtfhe::ntt::{ntt_backward, ntt_forward, reverse_bits, NttParams};
use vtfhe::vec_arithmetic::{scalar_mul, vec_add, vec_add_many, vec_inner, vec_mul};

const PSI_16: u64 = 17293822564807737345;
const PSI_16_INV: u64 = 68719476736;

fn fadd(a: u64, b: u64) -> u64 {
    ((a as u128 + b as u128) % ORDER as u128) as u64
}

fn fmul(a: u64, b: u64) -> u64 {
    ((a as u128 * b as u128) % ORDER as u128) as u64
}

fn fneg(a: u64) -> u64 {
    ((ORDER as u128 - a as u128) % ORDER as u128) as u64
}

fn fpow(b: u64, e: u64) -> u64 {
    let mut r = 1u64;
    for _ in 0..e {
        r = fmul(r, b);
    }
    r
}

fn params8() -> NttParams {
    NttParams::new(3, PSI_16, PSI_16_INV)
}

fn random_field_vec(n: usize) -> Vec<u64> {
    (0..n).map(|_| rand::random::<u32>() as u64).collect()
}

/// Signed value of a field element read as a balanced digit.
fn signed(x: u64) -> i128 {
    if x > ORDER / 2 {
        x as i128 - ORDER as i128
    } else {
        x as i128
    }
}

#[test]
fn test_vec_add() {
    let x = random_field_vec(4);
    let y = random_field_vec(4);
    let z = vec_add(&x, &y);
    for i in 0..4 {
        assert_eq!(fadd(x[i], y[i]), z[i]);
    }
}

#[test]
fn test_vec_mul() {
    let x = random_field_vec(4);
    let y = random_field_vec(4);
    let z = vec_mul(&x, &y);
    for i in 0..4 {
        assert_eq!(fmul(x[i], y[i]), z[i]);
    }
}

#[test]
fn test_vec_add_many() {
    let terms: Vec<Vec<u64>> = (0..3).map(|_| random_field_vec(4)).collect();
    let z = vec_add_many(&terms);
    for i in 0..4 {
        let mut sum = 0u64;
        for t in terms.iter() {
            sum = fadd(sum, t[i]);
        }
        assert_eq!(sum, z[i]);
    }
}

#[test]
fn test_vec_inner() {
    let l: Vec<Vec<u64>> = (0..3).map(|_| random_field_vec(4)).collect();
    let r: Vec<Vec<u64>> = (0..3).map(|_| random_field_vec(4)).collect();
    let z = vec_inner(&l, &r);
    for i in 0..4 {
        let mut sum = 0u64;
        for j in 0..3 {
            sum = fadd(sum, fmul(l[j][i], r[j][i]));
        }
        assert_eq!(sum, z[i]);
    }
}

#[test]
fn field_ops_wrap_at_the_order() {
    assert_eq!(field_add(ORDER - 1, 5), 4);
    assert_eq!(field_sub(3, 5), ORDER - 2);
    assert_eq!(field_mul(ORDER - 1, ORDER - 1), 1);
    assert_eq!(field_neg(0), 0);
    assert_eq!(field_neg(1), ORDER - 1);
    assert_eq!(field_pow(2, 64), fmul(1 << 32, 1 << 32));
    assert_eq!(field_pow(PSI_16, 8), ORDER - 1);
    assert_eq!(scalar_mul(3, &[1, ORDER - 1]), vec![3, ORDER - 3]);
}

#[test]
fn params_tables_hold_inverse_pairs() {
    let params = params8();
    assert_eq!(params.n, 8);
    assert_eq!(fmul(8, params.n_inv), 1);
    for j in 0..8 {
        assert_eq!(fmul(params.roots[j], params.inv_roots[j]), 1);
        assert_eq!(params.roots[j], fpow(PSI_16, reverse_bits(j, 3) as u64));
    }
    assert_eq!(reverse_bits(1, 3), 4);
    assert_eq!(reverse_bits(6, 3), 3);
}

#[test]
fn test_ntt_forward() {
    // Entry k of the forward transform is the input polynomial evaluated at
    // psi^(2 * bit_reverse(k) + 1), psi a primitive 16th root of unity.
    let params = params8();
    let x: Vec<u64> = vec![1, 2, 3, 4, 5, 6, 7, 8];
    let y = ntt_forward(&params, &x);
    for k in 0..8 {
        let point = fpow(PSI_16, 2 * reverse_bits(k, 3) as u64 + 1);
        let mut value = 0u64;
        for j in 0..8 {
            value = fadd(value, fmul(x[j], fpow(point, j as u64)));
        }
        assert_eq!(y[k], value);
    }
}

#[test]
fn test_ntt_backward() {
    let params = params8();
    let x = random_field_vec(8);
    assert_eq!(ntt_backward(&params, &ntt_forward(&params, &x)), x);
    assert_eq!(ntt_forward(&params, &ntt_backward(&params, &x)), x);
}

#[test]
fn ntt_is_linear() {
    let params = params8();
    let a = random_field_vec(8);
    let b = random_field_vec(8);
    let lhs = vec_add(&ntt_forward(&params, &a), &ntt_forward(&params, &b));
    assert_eq!(lhs, ntt_forward(&params, &vec_add(&a, &b)));
}

#[test]
fn ntt_multiplies_negacyclically() {
    let params = params8();
    let a: Vec<u64> = vec![1, 2, 0, 0, 0, 0, 0, 3];
    let b: Vec<u64> = vec![0, 1, 0, 0, 0, 0, 0, 0];
    // (1 + 2X + 3X^7) * X = X + 2X^2 + 3X^8 = -3 + X + 2X^2 mod X^8 + 1
    let prod = ntt_backward(&params, &vec_mul(&ntt_forward(&params, &a), &ntt_forward(&params, &b)));
    assert_eq!(prod, vec![ORDER - 3, 1, 2, 0, 0, 0, 0, 0]);
    let c = random_field_vec(8);
    let d = random_field_vec(8);
    let mut expected = vec![0u64; 8];
    for i in 0..8 {
        for j in 0..8 {
            let t = fmul(c[i], d[j]);
            if i + j < 8 {
                expected[i + j] = fadd(expected[i + j], t);
            } else {
                expected[i + j - 8] = fadd(expected[i + j - 8], fneg(t));
            }
        }
    }
    let got = ntt_backward(&params, &vec_mul(&ntt_forward(&params, &c), &ntt_forward(&params, &d)));
    assert_eq!(got, expected);
}

#[test]
fn bits_and_sums() {
    let bits = decimal_to_binary(0b1011);
    assert_eq!(bits.len(), 64);
    assert_eq!(&bits[..5], &[1, 1, 0, 1, 0]);
    assert_eq!(le_sum_native(&bits), 11);
    assert_eq!(le_sum_native(&decimal_to_binary(ORDER - 1)), ORDER - 1);
    assert_eq!(le_sum_native(&[]), 0);
}

#[test]
fn adders_follow_binary_addition() {
    for a in 0..2u64 {
        for b in 0..2u64 {
            assert_eq!(eval_half_adder(a, b), ((a + b) % 2, (a + b) / 2));
            for c in 0..2u64 {
                assert_eq!(eval_full_adder(a, b, c), ((a + b + c) % 2, (a + b + c) / 2));
            }
        }
    }
}

#[test]
fn two_s_complement_of_bits() {
    let x = decimal_to_binary(5);
    let t = eval_two_s_comp(&x);
    assert_eq!(t, decimal_to_binary(u64::MAX - 4));
    assert_eq!(le_sum_native(&t), (1u64 << 32) - 6);
    assert_eq!(eval_two_s_comp(&decimal_to_binary(0)), vec![0u64; 64]);
}

#[test]
fn negation_recomposes_to_minus_x() {
    for x in [0u64, 1, 2, 128, 1 << 40, ORDER / 2, ORDER - 1] {
        let neg = eval_neg_ele(&decimal_to_binary(x));
        assert_eq!(le_sum_native(&neg), fneg(x));
    }
    assert_eq!(eval_neg_ele(&decimal_to_binary(7)), decimal_to_binary(ORDER - 7));
}

fn recompose(digits: &[u64], logb: usize) -> u64 {
    let mut acc = 0u64;
    for d in digits.iter().rev() {
        acc = fadd(fmul(acc, 1u64 << logb), *d);
    }
    acc
}

#[test]
fn decomposition_recomposes_and_is_balanced() {
    for logb in [1usize, 3, 7, 8, 16] {
        for x in [0u64, 1, 127, 128, 129, 255, 12345, 1 << 62, ORDER / 2, ORDER / 2 + 1, ORDER - 1, ORDER - 128] {
            let bits = decimal_to_binary(x);
            let neg_bits = decimal_to_binary(fneg(x));
            let digits = decompose_native(&bits, &neg_bits, logb);
            assert_eq!(digits.len(), (64 + logb - 1) / logb);
            assert_eq!(recompose(&digits, logb), x);
            let half = 1i128 << (logb - 1);
            for d in digits.iter() {
                let s = signed(*d);
                assert!(-half <= s && s <= half);
            }
        }
    }
}

#[test]
fn decomposition_reaches_the_lower_bound() {
    // 128 in base 256: the window holds exactly B/2, so its digit is -B/2 with a carry.
    let digits = decompose_native(&decimal_to_binary(128), &decimal_to_binary(fneg(128)), 8);
    assert_eq!(digits[0], ORDER - 128);
    assert_eq!(digits[1], 1);
    assert!(digits[2..].iter().all(|d| *d == 0));
}

#[test]
fn constraint_form_of_decomposition() {
    for x in [0u64, 5, 200, ORDER - 3] {
        let bits = decimal_to_binary(x);
        let mut constraints: Vec<u64> = Vec::new();
        let digits = eval_decompose_coeff(&mut constraints, 1, x, &bits, 8);
        let native = decompose_native(&bits, &decimal_to_binary(fneg(x)), 8);
        assert_eq!(digits, native);
        assert_eq!(constraints.len(), 64 + 1 + 8);
        assert!(constraints.iter().all(|c| *c == 0));
    }
    let mut constraints: Vec<u64> = Vec::new();
    let _ = eval_decompose_coeff(&mut constraints, 1, 6, &decimal_to_binary(5), 8);
    assert_eq!(constraints[64], 1);
    let mut constraints: Vec<u64> = Vec::new();
    let _ = eval_decompose_coeff(&mut constraints, 0, 6, &decimal_to_binary(5), 8);
    assert_eq!(constraints[64], 0);
}
