use vtfhe::field::{field_add, field_mul, field_neg, field_sub, ORDER};
use vtfhe::ggsw_ct::GgswCtExp;
use vtfhe::glev_ct::GlevCtExp;
use vtfhe::glwe_ct::{decimal_to_binary, GlweCtExp};
use vtfhe::glwe_poly::GlwePolyExp;
use vtfhe::ntt::{ntt_forward, NttParams};
use vtfhe::step::{
    eval_step_circuit, generate_build_circuit_input, read_array, read_ggsw_ct, read_glwe_ct,
    rotate_glwe_native,
};
use vtfhe::vpbs::{num_rows, row_width, write_array, write_ggsw_ct, write_glwe_ct, VpbsStark};

const PSI_16: u64 = 17293822564807737345;
const PSI_16_INV: u64 = 68719476736;
const N: usize = 8;
const K: usize = 2;
const ELL: usize = 8;
const LOGB: usize = 8;

fn params8() -> NttParams {
    NttParams::new(3, PSI_16, PSI_16_INV)
}

fn glwe(polys: Vec<Vec<u64>>) -> GlweCtExp {
    GlweCtExp { polys: polys.into_iter().map(|coeffs| GlwePolyExp { coeffs }).collect() }
}

fn random_glwe() -> GlweCtExp {
    glwe((0..K).map(|_| (0..N).map(|_| rand::random::<u32>() as u64).collect()).collect())
}

fn random_ggsw() -> GgswCtExp {
    GgswCtExp {
        glev_cts: (0..K)
            .map(|_| GlevCtExp { glwe_cts: (0..ELL).map(|_| random_glwe()).collect() })
            .collect(),
    }
}

fn coeffs(ct: &GlweCtExp) -> Vec<Vec<u64>> {
    ct.polys.iter().map(|p| p.coeffs.clone()).collect()
}

#[test]
fn polynomial_rotation_is_negacyclic() {
    let p = GlwePolyExp { coeffs: vec![1, 2, 3, 4] };
    assert_eq!(p.rotate(1).coeffs, vec![ORDER - 4, 1, 2, 3]);
    assert_eq!(p.rotate(0).coeffs, vec![1, 2, 3, 4]);
    assert_eq!(p.rotate(4).coeffs, vec![ORDER - 1, ORDER - 2, ORDER - 3, ORDER - 4]);
    let ct = glwe(vec![vec![1, 2, 3, 4]]);
    // X^5 = -X in F[X] / (X^4 + 1)
    let r = rotate_glwe_native(&ct, 4, &decimal_to_binary(5));
    assert_eq!(r.polys[0].coeffs, vec![4, ORDER - 1, ORDER - 2, ORDER - 3]);
    // shifts are taken modulo 2n
    let r = rotate_glwe_native(&ct, 4, &decimal_to_binary(9));
    assert_eq!(r.polys[0].coeffs, vec![ORDER - 4, 1, 2, 3]);
}

#[test]
fn ciphertext_add_sub_and_sizes() {
    let a = random_glwe();
    let b = random_glwe();
    let s = a.add(&b);
    assert_eq!(s.sub(&b).polys[1].coeffs, a.polys[1].coeffs);
    assert_eq!(GlweCtExp::num_targets(N, K), 16);
    assert_eq!(GlevCtExp::num_targets(N, K, ELL), 128);
    assert_eq!(GgswCtExp::num_targets(N, K, ELL), 256);
    assert_eq!(GlwePolyExp::num_targets(N), 8);
    assert_eq!(a.flatten().len(), 16);
    let g = random_ggsw();
    assert_eq!(g.flatten().len(), 256);
    let row = g.glev_cts[1].get_row(0);
    assert_eq!(row.len(), ELL);
    assert_eq!(row[3], g.glev_cts[1].glwe_cts[3].polys[0].coeffs);
    let back = GlweCtExp::new_from_slice(&a.flatten(), N, K);
    assert_eq!(coeffs(&back), coeffs(&a));
}

#[test]
fn external_product_of_zero_ggsw_is_zero() {
    let params = params8();
    let ct = random_glwe();
    let ggsw = GgswCtExp::dummy_ct(N, K, ELL);
    let out = ggsw.external_product(&params, &ct, &ct.get_pos_bit_dec(), &ct.get_neg_bit_dec(), LOGB);
    assert_eq!(coeffs(&out), vec![vec![0u64; N]; K]);
}

#[test]
fn rows_read_back_what_was_written() {
    let a = random_glwe();
    let g = random_ggsw();
    let mut lv = vec![0u64; 16 + 256 + 3];
    let mut col = 0usize;
    write_glwe_ct(&mut lv, &a, &mut col);
    write_ggsw_ct(&mut lv, &g, &mut col);
    write_array(&mut lv, &mut col, &[7, 8, 9]);
    assert_eq!(col, lv.len());
    let mut col = 0usize;
    let a2 = read_glwe_ct(&lv, &mut col, N, K);
    let g2 = read_ggsw_ct(&lv, &mut col, N, K, ELL);
    let tail = read_array(&lv, &mut col, 3);
    assert_eq!(coeffs(&a2), coeffs(&a));
    assert_eq!(g2.flatten(), g.flatten());
    assert_eq!(tail, vec![7, 8, 9]);
}

#[test]
fn step_forms_agree_on_honest_witnesses() {
    let params = params8();
    let n_lwe = 4u64;
    for counter in 1..=6u64 {
        let acc = random_glwe();
        let ggsw = random_ggsw();
        let mask = rand::random::<u64>() % ORDER;
        let (native, xbits) =
            generate_build_circuit_input(&params, &acc, &ggsw, mask, counter, n_lwe, LOGB);
        let rot_mask = if counter == 1 { field_neg(mask) } else { mask };
        let first = if counter == 1 { 1 } else { 0 };
        let last = if counter == n_lwe + 2 { 1 } else { 0 };
        let mut constraints: Vec<u64> = Vec::new();
        let circuit = eval_step_circuit(
            &mut constraints,
            &params,
            &acc,
            &ggsw,
            mask,
            &decimal_to_binary(rot_mask),
            &xbits,
            1,
            first,
            last,
            LOGB,
        );
        assert_eq!(coeffs(&circuit), coeffs(&native));
        assert!(constraints.iter().all(|c| *c == 0));
    }
}

#[test]
fn test_vpbs() {
    let stark = VpbsStark { params: params8(), logb: LOGB };
    let n_lwe = 4usize;
    let testv: Vec<u64> = (0..N as u64).collect();
    let acc0 = glwe(vec![vec![0u64; N], testv.clone()]);
    let bsk: Vec<GgswCtExp> = (0..n_lwe).map(|_| GgswCtExp::dummy_ct(N, K, ELL)).collect();
    let ksk = GgswCtExp::dummy_ct(N, K, ELL);
    let ct: Vec<u64> = vec![3, 5, 7, 11, 13];
    let (rows, acc) = stark.generate_trace(&acc0, &bsk, &ksk, &ct);
    let width = row_width(N, K, ELL);
    assert_eq!(width, 16 + 256 + 1 + 64 + 1024 + 3);
    assert_eq!(rows.len(), num_rows(n_lwe + 2));
    assert_eq!(rows.len(), 8);
    for (i, row) in rows.iter().enumerate() {
        assert_eq!(row.len(), width);
        let flags = &row[width - 3..];
        if i < n_lwe + 2 {
            assert_eq!(flags, &[1, (i == 0) as u64, (i == n_lwe + 1) as u64]);
            assert_eq!(row[16 + 256], if i == 0 { 13 } else if i <= n_lwe { ct[i - 1] } else { 0 });
        } else {
            assert!(row.iter().all(|v| *v == 0));
        }
    }
    // row 0 holds the test vector; its rotation by -13 feeds row 1
    assert_eq!(&rows[0][8..16], &testv[..]);
    let rotated = rotate_glwe_native(&acc0, N, &decimal_to_binary(field_neg(13)));
    assert_eq!(&rows[1][8..16], &rotated.polys[1].coeffs[..]);
    // with zero keys every CMUX keeps the accumulator and the final product is zero
    assert_eq!(&rows[n_lwe + 1][8..16], &rotated.polys[1].coeffs[..]);
    assert_eq!(coeffs(&acc), vec![vec![0u64; N]; K]);
    assert_eq!(num_rows(20), 32);
    // every row, padding included, satisfies the step constraints
    for row in rows.iter() {
        let mut constraints: Vec<u64> = Vec::new();
        let _ = stark.eval_packed_generic(&mut constraints, row, K, ELL);
        assert!(constraints.iter().all(|c| *c == 0));
    }
}

/// A noiseless GGSW encryption of the polynomial `m` under the zero key:
/// level `l` of the body row holds the transformed plaintext scaled by `2^(l * LOGB)`.
fn trivial_ggsw(params: &NttParams, m: &[u64]) -> GgswCtExp {
    let zero_glev = GgswCtExp::dummy_ct(N, K, ELL).glev_cts.remove(0);
    let body_glev = GlevCtExp {
        glwe_cts: (0..ELL)
            .map(|l| {
                let scale = 1u64 << (l * LOGB);
                let scaled: Vec<u64> = m.iter().map(|c| field_mul(*c, scale)).collect();
                glwe(vec![vec![0u64; N], ntt_forward(params, &scaled)])
            })
            .collect(),
    };
    GgswCtExp { glev_cts: vec![zero_glev, body_glev] }
}

fn negacyclic_product(a: &[u64], b: &[u64]) -> Vec<u64> {
    let mut out = vec![0u64; N];
    for i in 0..N {
        for j in 0..N {
            let t = field_mul(a[i], b[j]);
            if i + j < N {
                out[i + j] = field_add(out[i + j], t);
            } else {
                out[i + j - N] = field_sub(out[i + j - N], t);
            }
        }
    }
    out
}

#[test]
fn external_product_multiplies_plaintexts() {
    let params = params8();
    let m: Vec<u64> = vec![2, 0, 1, 0, 0, 0, 0, ORDER - 1];
    let x: Vec<u64> = (0..N).map(|_| rand::random::<u64>() % ORDER).collect();
    let ct = glwe(vec![vec![0u64; N], x.clone()]);
    let ggsw = trivial_ggsw(&params, &m);
    let out = ggsw.external_product(&params, &ct, &ct.get_pos_bit_dec(), &ct.get_neg_bit_dec(), LOGB);
    assert_eq!(out.polys[0].coeffs, vec![0u64; N]);
    assert_eq!(out.polys[1].coeffs, negacyclic_product(&m, &x));
}

#[test]
fn blind_rotation_with_trivial_keys() {
    let stark = VpbsStark { params: params8(), logb: LOGB };
    let one: Vec<u64> = vec![1, 0, 0, 0, 0, 0, 0, 0];
    let zero: Vec<u64> = vec![0u64; N];
    let key_bits = [1u64, 0, 1, 1];
    let bsk: Vec<GgswCtExp> = key_bits
        .iter()
        .map(|s| trivial_ggsw(&stark.params, if *s == 1 { &one } else { &zero }))
        .collect();
    let ksk = trivial_ggsw(&stark.params, &one);
    let masks = [5u64, 9, 14, 3];
    let body = 6u64;
    let ct: Vec<u64> = masks.iter().copied().chain([body]).collect();
    let testv: Vec<u64> = (0..N as u64).collect();
    let acc0 = glwe(vec![vec![0u64; N], testv.clone()]);
    let (rows, acc) = stark.generate_trace(&acc0, &bsk, &ksk, &ct);
    assert_eq!(rows.len(), 8);
    // X^(-body) on the first row, then X^(mask_i) wherever the key bit is set
    let mut total = field_neg(body) % (2 * N as u64);
    for (a, s) in masks.iter().zip(key_bits.iter()) {
        if *s == 1 {
            total = (total + a) % (2 * N as u64);
        }
    }
    let expected = rotate_glwe_native(&acc0, N, &decimal_to_binary(total));
    assert_eq!(acc.polys[1].coeffs, expected.polys[1].coeffs);
    assert_eq!(acc.polys[0].coeffs, vec![0u64; N]);
}

#[test]
fn every_trace_row_satisfies_its_constraints() {
    let stark = VpbsStark { params: params8(), logb: LOGB };
    let one: Vec<u64> = vec![1, 0, 0, 0, 0, 0, 0, 0];
    let zero: Vec<u64> = vec![0u64; N];
    let key_bits = [0u64, 1, 1, 0];
    let bsk: Vec<GgswCtExp> = key_bits
        .iter()
        .map(|s| trivial_ggsw(&stark.params, if *s == 1 { &one } else { &zero }))
        .collect();
    let ksk = trivial_ggsw(&stark.params, &one);
    let ct: Vec<u64> = vec![2, 11, 7, 4, ORDER - 5];
    let acc0 = glwe(vec![vec![0u64; N], (0..N as u64).map(|v| v * 3).collect()]);
    let (rows, acc) = stark.generate_trace(&acc0, &bsk, &ksk, &ct);
    let width = row_width(N, K, ELL);
    for (i, row) in rows.iter().enumerate() {
        let mut constraints: Vec<u64> = Vec::new();
        let out = stark.eval_packed_generic(&mut constraints, row, K, ELL);
        assert!(!constraints.is_empty());
        assert!(constraints.iter().all(|c| *c == 0), "row {} violates a constraint", i);
        if i + 1 < ct.len() + 1 {
            assert_eq!(out.flatten(), rows[i + 1][..N * K].to_vec());
        } else if i == ct.len() {
            assert_eq!(out.flatten(), acc.flatten());
        }
    }
    // a tampered witness is caught
    let mut bad = rows[2].clone();
    bad[width - 4 - 64 * N * K + 3] ^= 1;
    let mut constraints: Vec<u64> = Vec::new();
    let _ = stark.eval_packed_generic(&mut constraints, &bad, K, ELL);
    assert!(constraints.iter().any(|c| *c != 0));
}
